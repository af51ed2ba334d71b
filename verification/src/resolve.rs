//! The move resolver: where every tile lands when the board is pushed in one
//! direction, and which pairs of equal tiles merge on the way.
//!
//! The rule is stated once, for a push toward column 0. A row is packed cell
//! by cell from column 0 upward; a tile joins the tile packed last when both
//! carry the same value and that tile has not absorbed another one in this
//! move, and it takes the next free cell otherwise.

use vstd::prelude::*;
use crate::game::{Flip, Grid, GridView, Move, Position, Tile};
use crate::rotate::{
    flip_moves, flip_tiles, lemma_flip_moves_back, lemma_flip_tiles_back, moves_from_canonical,
    tiles_to_canonical, toward,
};
use crate::store::{
    distinct, holds, lemma_entry_lookup, lemma_put, lemma_slot_of_held, lemma_total_bounds,
    lemma_total_take, put, slot, tile_at, tile_map, total,
};
use crate::trusted::{lemma_sorted_by_x, lemma_total_sorted, sort_by_x, sorted_by_x};

verus! {

/// A row after some of its tiles have been packed toward column 0.
pub struct Pack {
    /// How many cells are filled: columns 0 up to `len`.
    pub len: int,
    /// The value in the last filled cell.
    pub top: int,
    /// The last filled cell is the product of a merge.
    pub merged: bool,
}

impl Pack {
    /// A tile of value `n` that arrives next joins the last filled cell.
    pub open spec fn merges(self, n: int) -> bool {
        self.len > 0 && !self.merged && self.top == n
    }

    /// The column in which a tile of value `n` that arrives next comes to rest.
    pub open spec fn landing(self, n: int) -> int {
        if self.merges(n) {
            self.len - 1
        } else {
            self.len
        }
    }

    /// The row after a tile of value `n` has arrived.
    pub open spec fn absorb(self, n: int) -> Pack {
        if self.merges(n) {
            Pack { len: self.len, top: 2 * n, merged: true }
        } else {
            Pack { len: self.len + 1, top: n, merged: false }
        }
    }
}

/// Row `y` of `board` after the tiles in its columns below `x` have been
/// packed toward column 0.
pub open spec fn pack(board: Map<Position, Tile>, y: u16, x: int) -> Pack
    decreases x,
{
    if x <= 0 {
        Pack { len: 0, top: 0, merged: false }
    } else {
        let before = pack(board, y, x - 1);
        let cell = Position { x: (x - 1) as u16, y };
        if board.dom().contains(cell) {
            before.absorb(board[cell].n as int)
        } else {
            before
        }
    }
}

/// The cell in which the tile on `pos` comes to rest when the board is
/// pushed toward column 0.
pub open spec fn slide(board: Map<Position, Tile>, pos: Position) -> Position {
    Position { x: pack(board, pos.y, pos.x as int).landing(board[pos].n as int) as u16, y: pos.y }
}

/// For the tiles of `order`, in that order, the cell each leaves and the
/// cell it comes to rest in; a tile that stays is left out.
pub open spec fn moves_of(board: Map<Position, Tile>, order: Seq<(Position, Tile)>) -> Seq<
    (Position, Position),
>
    decreases order.len(),
{
    if order.len() == 0 {
        Seq::empty()
    } else {
        let rest = moves_of(board, order.drop_last());
        let from = order.last().0;
        let to = slide(board, from);
        if from != to {
            rest.push((from, to))
        } else {
            rest
        }
    }
}

/// The cell is taken, or has absorbed a merge in this move.
pub open spec fn blocked(
    tiles: Seq<(Position, Tile)>,
    unavailable: Seq<Position>,
    cell: Position,
) -> bool {
    unavailable.contains(cell) || holds(tiles, cell)
}

/// The nearest blocked cell of row `y` in a column below `x`; -1 where all
/// of them are free.
pub open spec fn blocker(
    tiles: Seq<(Position, Tile)>,
    unavailable: Seq<Position>,
    y: u16,
    x: int,
) -> int
    decreases x,
{
    if x <= 0 {
        -1
    } else if blocked(tiles, unavailable, Position { x: (x - 1) as u16, y }) {
        x - 1
    } else {
        blocker(tiles, unavailable, y, x - 1)
    }
}

/// A tile of value `n` that slides from `pos` toward column 0 merges with
/// the tile it runs into: that tile has the same value and its cell has not
/// absorbed a merge.
pub open spec fn runs_into_equal(
    tiles: Seq<(Position, Tile)>,
    unavailable: Seq<Position>,
    pos: Position,
    n: u32,
) -> bool {
    let b = blocker(tiles, unavailable, pos.y, pos.x as int);
    let cell = Position { x: b as u16, y: pos.y };
    &&& b >= 0
    &&& !unavailable.contains(cell)
    &&& tile_at(tiles, cell) matches Some(t)
    &&& t.n == n
}

/// Where a tile of value `n` that slides from `pos` toward column 0 comes to
/// rest, and the value found there afterwards: the cell of the tile it runs
/// into and twice `n` where the two merge, the cell before that tile and `n`
/// otherwise.
pub open spec fn desired(
    tiles: Seq<(Position, Tile)>,
    unavailable: Seq<Position>,
    pos: Position,
    n: u32,
) -> (Position, int) {
    let b = blocker(tiles, unavailable, pos.y, pos.x as int);
    if runs_into_equal(tiles, unavailable, pos, n) {
        (Position { x: b as u16, y: pos.y }, 2 * n)
    } else {
        (Position { x: (b + 1) as u16, y: pos.y }, n as int)
    }
}

/// `cells` holds `pos`.
pub fn contains_position(cells: &Vec<Position>, pos: Position) -> (r: bool)
    ensures
        r == cells@.contains(pos),
{
    let mut i: usize = 0;
    while i < cells.len()
        invariant
            i <= cells.len(),
            forall|j: int| 0 <= j < i ==> cells@[j] != pos,
        decreases cells.len() - i,
    {
        if cells[i] == pos {
            return true;
        }
        i += 1;
    }
    false
}

impl GridView {
    /// The store is sound: the board has at least one cell, no cell holds
    /// two tiles, every tile and every move lies on the board, and no tile
    /// has the value 0.
    pub open spec fn placed(self) -> bool {
        &&& self.size >= 1
        &&& distinct(self.tiles)
        &&& self.all_on_board()
        &&& forall|i: int| 0 <= i < self.tiles.len() ==> (#[trigger] self.tiles[i]).1.n > 0
    }

    /// The moves that a push in direction `mv` makes: the board is turned
    /// so that `mv` points toward column 0, its tiles are taken in ascending
    /// order of column, and the moves are turned back.
    pub open spec fn transitions(self, mv: Move) -> Seq<(Position, Position)> {
        let canon = tiles_to_canonical(mv, self.size, self.tiles);
        moves_from_canonical(mv, self.size, moves_of(tile_map(canon), sorted_by_x(canon)))
    }
}

/// A sound store stays sound when the board is turned, and keeps its sum.
pub proof fn lemma_canonical_placed(grid: GridView, mv: Move)
    requires
        grid.placed(),
    ensures
        grid.with_tiles(tiles_to_canonical(mv, grid.size, grid.tiles)).with_moving(
            match toward(mv) {
                Some(flip) => flip_moves(flip, grid.size, grid.moving_tiles),
                None => grid.moving_tiles,
            },
        ).placed(),
        total(tiles_to_canonical(mv, grid.size, grid.tiles)) == total(grid.tiles),
        toward(mv) matches Some(flip) ==> tiles_to_canonical(mv, grid.size, grid.tiles)
            == flip_tiles(flip, grid.size, grid.tiles),
        toward(mv) is None ==> tiles_to_canonical(mv, grid.size, grid.tiles) == grid.tiles,
{
    let canon = tiles_to_canonical(mv, grid.size, grid.tiles);
    match toward(mv) {
        Some(flip) => {
            assert(canon =~= flip_tiles(flip, grid.size, grid.tiles));
            lemma_flip_tiles_back(flip, grid.size, grid.tiles);
            lemma_flip_moves_back(flip, grid.size, grid.moving_tiles);
            assert forall|i: int, j: int| 0 <= i < j < canon.len() implies (#[trigger] canon[i]).0
                != (#[trigger] canon[j]).0 by {
                crate::rotate::lemma_flip_back(flip, grid.size, grid.tiles[i].0);
                crate::rotate::lemma_flip_back(flip, grid.size, grid.tiles[j].0);
            }
        },
        None => {
            assert(canon =~= grid.tiles);
        },
    }
    lemma_total_same_values(grid.tiles, canon);
}

/// Two stores that hold the same values in the same order have the same sum.
pub proof fn lemma_total_same_values(a: Seq<(Position, Tile)>, b: Seq<(Position, Tile)>)
    requires
        a.len() == b.len(),
        forall|i: int| 0 <= i < a.len() ==> (#[trigger] a[i]).1.n == b[i].1.n,
    ensures
        total(a) == total(b),
    decreases a.len(),
{
    if a.len() > 0 {
        assert(a.last().1.n == b.last().1.n) by {
            assert(a[a.len() - 1].1.n == b[a.len() - 1].1.n);
        }
        assert forall|i: int| 0 <= i < a.drop_last().len() implies (#[trigger] a.drop_last()[i]).1.n
            == b.drop_last()[i].1.n by {
            assert(a[i].1.n == b[i].1.n);
        }
        lemma_total_same_values(a.drop_last(), b.drop_last());
    }
}

/// One past the last column a board can have.
pub open spec fn column_limit() -> int {
    u16::MAX + 1
}

/// A packed row is no longer than the stretch it was packed from.
pub proof fn lemma_pack_len(board: Map<Position, Tile>, y: u16, x: int)
    requires
        0 <= x,
    ensures
        0 <= pack(board, y, x).len <= x,
    decreases x,
{
    if x > 0 {
        lemma_pack_len(board, y, x - 1);
    }
}

/// Two boards that agree on row `y` below column `x` pack alike there.
pub proof fn lemma_pack_agree(b1: Map<Position, Tile>, b2: Map<Position, Tile>, y: u16, x: int)
    requires
        0 <= x <= column_limit(),
        forall|p: Position|
            p.y == y && p.x < x ==> (#[trigger] b1.dom().contains(p) <==> b2.dom().contains(p)),
        forall|p: Position|
            p.y == y && p.x < x && #[trigger] b1.dom().contains(p) ==> b1[p].n == b2[p].n,
    ensures
        pack(b1, y, x) == pack(b2, y, x),
    decreases x,
{
    if x > 0 {
        lemma_pack_agree(b1, b2, y, x - 1);
        let cell = Position { x: (x - 1) as u16, y };
        assert(b1.dom().contains(cell) <==> b2.dom().contains(cell));
    }
}

/// Empty cells leave a packed row as it is.
pub proof fn lemma_pack_skip(board: Map<Position, Tile>, y: u16, x1: int, x2: int)
    requires
        0 <= x1 <= x2 <= column_limit(),
        forall|p: Position| p.y == y && x1 <= p.x < x2 ==> !#[trigger] board.dom().contains(p),
    ensures
        pack(board, y, x2) == pack(board, y, x1),
    decreases x2 - x1,
{
    if x1 < x2 {
        lemma_pack_skip(board, y, x1, x2 - 1);
        let cell = Position { x: (x2 - 1) as u16, y };
        assert(!board.dom().contains(cell));
    }
}

/// Where the cells of row `y` from column `len` up to `x` are free and the
/// one before them is not, that one is the nearest blocked cell.
pub proof fn lemma_blocker_is_top(
    tiles: Seq<(Position, Tile)>,
    unavailable: Seq<Position>,
    y: u16,
    x: int,
    len: int,
)
    requires
        0 <= len <= x <= column_limit(),
        forall|p: Position|
            p.y == y && len <= p.x < x ==> !#[trigger] blocked(tiles, unavailable, p),
        len > 0 ==> blocked(tiles, unavailable, Position { x: (len - 1) as u16, y }),
    ensures
        blocker(tiles, unavailable, y, x) == len - 1,
    decreases x,
{
    if x > len {
        let cell = Position { x: (x - 1) as u16, y };
        assert(!blocked(tiles, unavailable, cell));
        lemma_blocker_is_top(tiles, unavailable, y, x - 1, len);
    }
}

/// A packed row grows by one cell per column at most. Where it has not
/// grown over a stretch and its last cell is no product of a merge, the
/// stretch holds no tile.
pub proof fn lemma_pack_between(board: Map<Position, Tile>, y: u16, a: int, c: int)
    requires
        0 <= a <= c <= column_limit(),
    ensures
        pack(board, y, a).len <= pack(board, y, c).len <= pack(board, y, a).len + (c - a),
        pack(board, y, c).len == pack(board, y, a).len && !pack(board, y, c).merged ==> pack(
            board,
            y,
            c,
        ) == pack(board, y, a) && forall|p: Position|
            p.y == y && a <= p.x < c ==> !#[trigger] board.dom().contains(p),
    decreases c - a,
{
    if a < c {
        lemma_pack_between(board, y, a, c - 1);
        lemma_pack_len(board, y, a);
        let cell = Position { x: (c - 1) as u16, y };
        if pack(board, y, c).len == pack(board, y, a).len && !pack(board, y, c).merged {
            assert(!board.dom().contains(cell));
            assert forall|p: Position| p.y == y && a <= p.x < c implies !#[trigger] board.dom().contains(
                p,
            ) by {
                if p.x == c - 1 {
                    assert(p == cell);
                }
            }
        }
    }
}

/// Two tiles of one row keep their order when the board is pushed toward
/// column 0, and the one further from column 0 travels no less far. Where
/// both come to rest in one cell they carry the same value and no tile lies
/// between them.
pub proof fn lemma_slide_pair(board: Map<Position, Tile>, p: Position, q: Position)
    requires
        board.dom().contains(p),
        board.dom().contains(q),
        p.y == q.y,
        p.x < q.x,
    ensures
        slide(board, p).y == p.y,
        slide(board, q).y == q.y,
        slide(board, p).x <= p.x,
        slide(board, q).x <= q.x,
        slide(board, p).x <= slide(board, q).x,
        slide(board, q).x - slide(board, p).x <= q.x - p.x,
        slide(board, p) == slide(board, q) ==> board[p].n == board[q].n && forall|c: Position|
            c.y == p.y && p.x < c.x < q.x ==> !#[trigger] board.dom().contains(c),
{
    let y = p.y;
    lemma_pack_len(board, y, p.x as int);
    lemma_pack_len(board, y, q.x as int);
    lemma_pack_len(board, y, p.x + 1);
    lemma_pack_between(board, y, p.x + 1, q.x as int);
    let cell = Position { x: ((p.x + 1) - 1) as u16, y };
    assert(cell == p);
    assert(pack(board, y, p.x + 1) == pack(board, y, p.x as int).absorb(board[p].n as int));
}

/// A tile comes to rest in its own row, no further from column 0 than it was.
pub proof fn lemma_slide_range(board: Map<Position, Tile>, p: Position)
    ensures
        slide(board, p).y == p.y,
        slide(board, p).x <= p.x,
        pack(board, p.y, p.x as int).landing(board[p].n as int) == slide(board, p).x,
{
    lemma_pack_len(board, p.y, p.x as int);
}

/// No three tiles of one row come to rest in one cell.
pub proof fn lemma_slide_no_third(
    board: Map<Position, Tile>,
    p: Position,
    q: Position,
    s: Position,
)
    requires
        board.dom().contains(p),
        board.dom().contains(q),
        board.dom().contains(s),
        p.y == q.y,
        q.y == s.y,
        p.x < q.x < s.x,
    ensures
        !(slide(board, p) == slide(board, q) && slide(board, q) == slide(board, s)),
{
    lemma_slide_pair(board, p, s);
}

/// The index in `order` of the tile that makes the `i`-th move of
/// `moves_of(board, order)`.
pub open spec fn origin(board: Map<Position, Tile>, order: Seq<(Position, Tile)>, i: int) -> int
    decreases order.len(),
{
    if order.len() == 0 {
        0
    } else if i < moves_of(board, order.drop_last()).len() {
        origin(board, order.drop_last(), i)
    } else {
        order.len() - 1
    }
}

/// The moves of `moves_of` are the moves of the tiles that do not stay, one
/// for each, in the order of the tiles.
pub proof fn lemma_moves_of(board: Map<Position, Tile>, order: Seq<(Position, Tile)>)
    ensures
        forall|i: int|
            0 <= i < moves_of(board, order).len() ==> {
                let a = #[trigger] origin(board, order, i);
                &&& 0 <= a < order.len()
                &&& moves_of(board, order)[i] == (order[a].0, slide(board, order[a].0))
                &&& order[a].0 != slide(board, order[a].0)
            },
        forall|i: int, j: int|
            0 <= i < j < moves_of(board, order).len() ==> #[trigger] origin(board, order, i)
                < #[trigger] origin(board, order, j),
        forall|a: int|
            0 <= a < order.len() && (#[trigger] order[a]).0 != slide(board, order[a].0)
                ==> exists|i: int|
                0 <= i < moves_of(board, order).len() && origin(board, order, i) == a,
    decreases order.len(),
{
    if order.len() > 0 {
        let rest = order.drop_last();
        lemma_moves_of(board, rest);
        let ms = moves_of(board, order);
        let mr = moves_of(board, rest);
        assert forall|i: int| 0 <= i < ms.len() implies {
            let a = #[trigger] origin(board, order, i);
            &&& 0 <= a < order.len()
            &&& ms[i] == (order[a].0, slide(board, order[a].0))
            &&& order[a].0 != slide(board, order[a].0)
        } by {
            if i < mr.len() {
                let a = origin(board, rest, i);
                assert(rest[a] == order[a]);
            }
        }
        assert forall|i: int, j: int| 0 <= i < j < ms.len() implies #[trigger] origin(
            board,
            order,
            i,
        ) < #[trigger] origin(board, order, j) by {
            let a = origin(board, rest, i);
            if j < mr.len() {
                let c = origin(board, rest, j);
                assert(a < c);
            } else {
                assert(0 <= a < rest.len());
            }
        }
        assert forall|a: int|
            0 <= a < order.len() && (#[trigger] order[a]).0 != slide(
                board,
                order[a].0,
            ) implies exists|i: int| 0 <= i < ms.len() && origin(board, order, i) == a by {
            if a < rest.len() {
                assert(rest[a] == order[a]);
                let i = choose|i: int| 0 <= i < mr.len() && origin(board, rest, i) == a;
                assert(origin(board, order, i) == a);
            } else {
                assert(origin(board, order, ms.len() - 1) == a);
            }
        }
    }
}

/// The working board `placed` with its merged cells `unavailable` shows, in
/// row `y`, exactly the packed row `row`.
pub open spec fn row_packed(
    placed: Map<Position, Tile>,
    unavailable: Seq<Position>,
    y: u16,
    row: Pack,
) -> bool {
    &&& 0 <= row.len
    &&& forall|p: Position| p.y == y ==> (#[trigger] placed.dom().contains(p) <==> p.x < row.len)
    &&& forall|p: Position| p.y == y && #[trigger] unavailable.contains(p) ==> p.x < row.len
    &&& row.len > 0 ==> {
        let top = Position { x: (row.len - 1) as u16, y };
        &&& unavailable.contains(top) <==> row.merged
        &&& !row.merged ==> placed[top].n == row.top
    }
}

/// What is known of the tile that the resolver takes up `k`-th, of the
/// tiles it has placed before, and of the rows they form.
pub proof fn lemma_row_at(canon: Seq<(Position, Tile)>, k: int)
    requires
        distinct(canon),
        0 <= k < sorted_by_x(canon).len(),
    ensures
        ({
            let sorted = sorted_by_x(canon);
            let pos = sorted[k].0;
            let tile = sorted[k].1;
            let done = sorted.take(k);
            let next = sorted.take(k + 1);
            let board = tile_map(canon);
            &&& board.dom().contains(pos)
            &&& board[pos] == tile
            &&& distinct(done)
            &&& distinct(next)
            &&& !holds(done, pos)
            &&& next == done.push(sorted[k])
            &&& tile_map(next) == tile_map(done).insert(pos, tile)
            &&& pack(tile_map(done), pos.y, column_limit()) == pack(board, pos.y, pos.x as int)
            &&& pack(tile_map(next), pos.y, column_limit()) == pack(
                board,
                pos.y,
                pos.x as int,
            ).absorb(tile.n as int)
            &&& forall|y: u16|
                y != pos.y ==> #[trigger] pack(tile_map(next), y, column_limit()) == pack(
                    tile_map(done),
                    y,
                    column_limit(),
                )
            &&& total(next) == total(done) + tile.n
            &&& total(next) <= total(canon)
        }),
{
    let sorted = sorted_by_x(canon);
    let pos = sorted[k].0;
    let tile = sorted[k].1;
    let done = sorted.take(k);
    let next = sorted.take(k + 1);
    let board = tile_map(canon);
    let partial = tile_map(done);
    let partial1 = tile_map(next);
    lemma_sorted_by_x(canon);
    lemma_total_sorted(canon);
    lemma_total_take(sorted, k);
    lemma_total_take(sorted, k + 1);
    assert(next =~= done.push(sorted[k]));
    assert(distinct(done) && distinct(next)) by {
        assert forall|i: int, j: int| 0 <= i < j < next.len() implies (#[trigger] next[i]).0 != (
        #[trigger] next[j]).0 by {
            assert(next[i] == sorted[i] && next[j] == sorted[j]);
        }
        assert forall|i: int, j: int| 0 <= i < j < done.len() implies (#[trigger] done[i]).0 != (
        #[trigger] done[j]).0 by {
            assert(done[i] == sorted[i] && done[j] == sorted[j]);
        }
    }
    assert(canon.contains(sorted[k]));
    let ik = choose|i: int| 0 <= i < canon.len() && canon[i] == sorted[k];
    lemma_entry_lookup(canon, ik);
    if holds(done, pos) {
        let j = choose|j: int| 0 <= j < done.len() && (#[trigger] done[j]).0 == pos;
        assert(done[j] == sorted[j]);
        assert(sorted[j].0 != sorted[k].0);
    }
    lemma_put(done, pos, tile);
    assert(put(done, pos, tile) == next);
    // the tiles placed so far are the tiles of the board in earlier cells
    assert forall|p: Position| #[trigger] partial.dom().contains(p) implies board.dom().contains(
        p,
    ) && board[p] == partial[p] && p.x <= pos.x && p != pos by {
        let j = choose|j: int| 0 <= j < done.len() && (#[trigger] done[j]).0 == p;
        lemma_entry_lookup(done, j);
        assert(done[j] == sorted[j]);
        assert(canon.contains(sorted[j]));
        let i = choose|i: int| 0 <= i < canon.len() && canon[i] == sorted[j];
        lemma_entry_lookup(canon, i);
        assert(sorted[j].0.x <= sorted[k].0.x);
        assert(sorted[j].0 != sorted[k].0);
    }
    assert forall|p: Position|
        p.y == pos.y && p.x < pos.x && #[trigger] board.dom().contains(
            p,
        ) implies partial.dom().contains(p) by {
        let i = choose|i: int| 0 <= i < canon.len() && (#[trigger] canon[i]).0 == p;
        assert(sorted.contains(canon[i]));
        let j = choose|j: int| 0 <= j < sorted.len() && sorted[j] == canon[i];
        if j > k {
            assert(sorted[k].0.x <= sorted[j].0.x);
        }
        assert(j < k);
        assert(done[j] == sorted[j]);
    }
    let y = pos.y;
    lemma_pack_skip(partial, y, pos.x as int, column_limit());
    lemma_pack_agree(partial, board, y, pos.x as int);
    assert(partial1 =~= partial.insert(pos, tile));
    lemma_pack_skip(partial1, y, pos.x + 1, column_limit());
    lemma_pack_agree(partial1, partial, y, pos.x as int);
    assert(partial1.dom().contains(pos));
    assert(pack(partial1, y, pos.x + 1) == pack(partial1, y, pos.x as int).absorb(
        partial1[pos].n as int,
    ));
    assert forall|y2: u16| y2 != pos.y implies #[trigger] pack(partial1, y2, column_limit())
        == pack(partial, y2, column_limit()) by {
        lemma_pack_agree(partial1, partial, y2, column_limit());
    }
}

impl Grid {
    /// Slides a tile of value `n` from `pos` toward column 0 over this board.
    ///
    /// Returns the cell in which it comes to rest and the value found there
    /// afterwards. The tile stops before the nearest cell that is taken or
    /// listed in `unavailable`; it merges into that cell where the cell is not
    /// listed and holds a tile of value `n`. Twice `n` must fit in a `u32`
    /// where the tile merges.
    pub fn get_desired_position(&self, pos: Position, n: u32, unavailable: &Vec<Position>) -> (r: (
        Position,
        u32,
    ))
        requires
            runs_into_equal(self.tiles@, unavailable@, pos, n) ==> 2 * n <= u32::MAX,
        ensures
            r.0 == desired(self.tiles@, unavailable@, pos, n).0,
            r.1 == desired(self.tiles@, unavailable@, pos, n).1,
    {
        let Position { x, y } = pos;
        if x == 0_u16 {
            return (Position::new(x, y), n);
        }
        let mut new_x: u16 = x;
        while new_x > 0
            invariant
                new_x <= x,
                x == pos.x,
                y == pos.y,
                runs_into_equal(self.tiles@, unavailable@, pos, n) ==> 2 * n <= u32::MAX,
                blocker(self.tiles@, unavailable@, y, x as int) == blocker(
                    self.tiles@,
                    unavailable@,
                    y,
                    new_x as int,
                ),
            decreases new_x,
        {
            let checking_x: u16 = new_x - 1;
            let new_pos = Position::new(checking_x, y);
            if contains_position(unavailable, new_pos) {
                return (Position::new(new_x, y), n);
            }
            if let Some(checking_tile) = self.get_tile(new_pos) {
                if checking_tile.n == n {
                    return (Position::new(checking_x, y), n * 2);
                } else {
                    return (Position::new(new_x, y), n);
                }
            }
            new_x = checking_x;
        }
        (Position::new(new_x, y), n)
    }

    /// Pushes every tile toward column 0 on a working board of its own.
    ///
    /// The tiles are taken up in ascending order of column. The working board
    /// comes back with the moves that this makes, in that order.
    fn slide_all(&self) -> (new_grid: Grid)
        requires
            self@.placed(),
            total(self.tiles@) <= u32::MAX,
        ensures
            new_grid.moving_tiles@ == moves_of(tile_map(self.tiles@), sorted_by_x(self.tiles@)),
            new_grid@.all_on_board(),
            new_grid.size == self.size,
    {
        let mut new_grid = Grid {
            tiles: Vec::new(),
            moving_tiles: Vec::new(),
            size: self.size,
            tile_width: self.tile_width,
            tile_height: self.tile_height,
            coordinates: self.coordinates,
            over: self.over,
        };
        let sorted = sort_by_x(&self.tiles);
        let mut unavailable: Vec<Position> = Vec::new();
        let ghost canon = self.tiles@;
        let ghost board = tile_map(canon);
        let mut k: usize = 0;
        proof {
            lemma_sorted_by_x(canon);
            crate::store::lemma_total_nonnegative(canon);
            assert(sorted@.take(0) =~= Seq::empty());
            assert(tile_map(Seq::<(Position, Tile)>::empty()) =~= Map::empty());
            assert forall|y: u16|
                row_packed(
                    tile_map(new_grid.tiles@),
                    unavailable@,
                    y,
                    #[trigger] pack(tile_map(sorted@.take(0)), y, column_limit()),
                ) by {
                lemma_pack_skip(Map::empty(), y, 0, column_limit());
            }
        }
        while k < sorted.len()
            invariant
                k <= sorted.len(),
                canon == self.tiles@,
                board == tile_map(canon),
                self@.placed(),
                total(canon) <= u32::MAX,
                sorted@ == sorted_by_x(canon),
                new_grid.size == self.size,
                distinct(new_grid.tiles@),
                total(new_grid.tiles@) == total(sorted@.take(k as int)),
                total(sorted@.take(k as int)) <= total(canon),
                forall|y: u16|
                    row_packed(
                        tile_map(new_grid.tiles@),
                        unavailable@,
                        y,
                        #[trigger] pack(tile_map(sorted@.take(k as int)), y, column_limit()),
                    ),
                forall|p: Position| #[trigger]
                    tile_map(new_grid.tiles@).dom().contains(p) ==> self@.on_board(p),
                forall|i: int|
                    0 <= i < new_grid.moving_tiles@.len() ==> self@.on_board(
                        (#[trigger] new_grid.moving_tiles@[i]).0,
                    ) && self@.on_board(new_grid.moving_tiles@[i].1),
                new_grid.moving_tiles@ == moves_of(board, sorted@.take(k as int)),
            decreases sorted.len() - k,
        {
            let (pos, tile) = sorted[k];
            let ghost done = sorted@.take(k as int);
            let ghost next = sorted@.take(k + 1);
            let ghost placed = tile_map(new_grid.tiles@);
            let ghost row = pack(tile_map(done), pos.y, column_limit());
            let ghost before = unavailable@;
            proof {
                lemma_row_at(canon, k as int);
                lemma_sorted_by_x(canon);
                assert(canon.contains(sorted@[k as int]));
                let i = choose|i: int| 0 <= i < canon.len() && canon[i] == sorted@[k as int];
                assert(self@.on_board(self@.tiles[i].0));
                assert(tile.n > 0);
                lemma_pack_len(board, pos.y, pos.x as int);
                assert(row_packed(placed, unavailable@, pos.y, row));
                assert forall|p: Position| p.y == pos.y && row.len <= p.x < pos.x implies !#[trigger] blocked(
                    new_grid.tiles@,
                    unavailable@,
                    p,
                ) by {
                    assert(!placed.dom().contains(p));
                }
                if row.len > 0 {
                    let top = Position { x: (row.len - 1) as u16, y: pos.y };
                    assert(placed.dom().contains(top));
                }
                lemma_blocker_is_top(new_grid.tiles@, unavailable@, pos.y, pos.x as int, row.len);
                if runs_into_equal(new_grid.tiles@, unavailable@, pos, tile.n) {
                    let top = Position { x: (row.len - 1) as u16, y: pos.y };
                    lemma_slot_of_held(new_grid.tiles@, top);
                    lemma_total_bounds(new_grid.tiles@, slot(new_grid.tiles@, top));
                }
            }
            let (new_pos, n) = new_grid.get_desired_position(pos, tile.n, &unavailable);
            proof {
                assert(runs_into_equal(new_grid.tiles@, unavailable@, pos, tile.n) <==> row.merges(
                    tile.n as int,
                )) by {
                    if row.len > 0 {
                        let top = Position { x: (row.len - 1) as u16, y: pos.y };
                        assert(placed.dom().contains(top));
                    }
                }
                assert(new_pos == slide(board, pos));
                assert(n == if row.merges(tile.n as int) {
                    2 * tile.n
                } else {
                    tile.n as int
                });
                lemma_put(new_grid.tiles@, new_pos, Tile { coordinates: tile.coordinates, n });
                assert(crate::store::value_at(new_grid.tiles@, new_pos) == n - tile.n) by {
                    if !row.merges(tile.n as int) {
                        assert(!placed.dom().contains(new_pos));
                    }
                }
            }
            if n > tile.n {
                unavailable.push(new_pos);
            }
            new_grid.put_tile(new_pos, Tile::new(tile.coordinates, n));
            if pos != new_pos {
                new_grid.moving_tiles.push((pos, new_pos));
            }
            proof {
                let placed1 = tile_map(new_grid.tiles@);
                let row1 = row.absorb(tile.n as int);
                assert(placed1 == placed.insert(
                    new_pos,
                    Tile { coordinates: tile.coordinates, n },
                ));
                assert(next.drop_last() =~= done);
                assert(new_grid.moving_tiles@ == moves_of(board, next));
                assert(unavailable@ == if n > tile.n {
                    before.push(new_pos)
                } else {
                    before
                });
                assert forall|p: Position| #[trigger]
                    unavailable@.contains(p) <==> (before.contains(p) || (n > tile.n && p
                        == new_pos)) by {
                    if unavailable@.contains(p) {
                        let j = choose|j: int| 0 <= j < unavailable@.len() && unavailable@[j] == p;
                        if j < before.len() {
                            assert(before[j] == p);
                        }
                    }
                    if before.contains(p) {
                        let j = choose|j: int| 0 <= j < before.len() && before[j] == p;
                        assert(unavailable@[j] == p);
                    }
                    if n > tile.n && p == new_pos {
                        assert(unavailable@[unavailable@.len() - 1] == p);
                    }
                }
                assert forall|y: u16|
                    row_packed(
                        placed1,
                        unavailable@,
                        y,
                        #[trigger] pack(tile_map(next), y, column_limit()),
                    ) by {
                    if y == pos.y {
                        assert(pack(tile_map(next), y, column_limit()) == row1);
                        assert forall|p: Position| p.y == y implies (#[trigger] placed1.dom().contains(
                            p,
                        ) <==> p.x < row1.len) by {
                            assert(placed.dom().contains(p) <==> p.x < row.len);
                        }
                        assert forall|p: Position|
                            p.y == y && #[trigger] unavailable@.contains(p) implies p.x
                            < row1.len by {
                            if before.contains(p) {
                                assert(p.x < row.len);
                            }
                        }
                        let top1 = Position { x: (row1.len - 1) as u16, y };
                        assert(top1 == new_pos);
                        if before.contains(top1) {
                            assert(top1.x < row.len);
                        }
                    } else {
                        let rowy = pack(tile_map(done), y, column_limit());
                        assert(pack(tile_map(next), y, column_limit()) == rowy);
                        assert(row_packed(placed, before, y, rowy));
                        assert forall|p: Position| p.y == y implies (#[trigger] placed1.dom().contains(
                            p,
                        ) <==> p.x < rowy.len) by {
                            assert(placed.dom().contains(p) <==> p.x < rowy.len);
                        }
                        assert forall|p: Position|
                            p.y == y && #[trigger] unavailable@.contains(p) implies p.x
                            < rowy.len by {
                            assert(before.contains(p));
                        }
                    }
                }
            }
            k += 1;
        }
        proof {
            assert(sorted@.take(k as int) =~= sorted@);
            assert forall|i: int| 0 <= i < new_grid.tiles@.len() implies new_grid@.on_board(
                (#[trigger] new_grid@.tiles[i]).0,
            ) by {
                lemma_entry_lookup(new_grid.tiles@, i);
            }
        }
        new_grid
    }

    /// Resolves a push of the board in direction `mv`.
    ///
    /// Returns, for every tile that does not stay where it is, the cell it
    /// leaves and the cell it comes to rest in; an empty list says that the
    /// move changes nothing. The grid itself is left as it was. The sum of
    /// the values must fit in a `u32`, so that every merge does.
    pub fn check(&mut self, mv: Move) -> (r: Vec<(Position, Position)>)
        requires
            old(self)@.placed(),
            total(old(self).tiles@) <= u32::MAX,
        ensures
            final(self)@ == old(self)@,
            r@ == old(self)@.transitions(mv),
    {
        proof {
            lemma_canonical_placed(old(self)@, mv);
        }
        match mv {
            Move::Right => {
                self.flip(Flip::Horizontal);
            },
            Move::Up => {
                self.flip(Flip::Clock);
            },
            Move::Down => {
                self.flip(Flip::CounterClock);
            },
            Move::Left => (),
        };
        assert(self.tiles@ =~= tiles_to_canonical(mv, self.size, old(self).tiles@));
        let mut new_grid = self.slide_all();
        proof {
            if let Some(flip) = toward(mv) {
                lemma_flip_tiles_back(flip, self.size, old(self).tiles@);
                lemma_flip_moves_back(flip, self.size, old(self).moving_tiles@);
            }
        }
        match mv {
            Move::Right => {
                self.flip(Flip::Horizontal);
                new_grid.flip(Flip::Horizontal);
            },
            Move::Up => {
                self.flip(Flip::CounterClock);
                new_grid.flip(Flip::CounterClock);
            },
            Move::Down => {
                self.flip(Flip::Clock);
                new_grid.flip(Flip::Clock);
            },
            Move::Left => (),
        };
        assert(new_grid.moving_tiles@ =~= old(self)@.transitions(mv));
        new_grid.moving_tiles
    }
}

} // verus!
