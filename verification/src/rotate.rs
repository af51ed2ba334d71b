//! Turning the board: the index permutations that map each direction to the
//! direction the resolver is written for, and back.

use vstd::prelude::*;
use crate::game::{Flip, Grid, GridView, Move, Position, Tile};

verus! {

/// The cell that `pos` becomes when a board of `size` cells a side is turned.
pub open spec fn flipped(flip: Flip, size: u16, pos: Position) -> Position {
    let s = size - 1;
    match flip {
        Flip::Horizontal => Position { x: (s - pos.x) as u16, y: pos.y },
        Flip::CounterClock => Position { x: (s - pos.y) as u16, y: pos.x },
        Flip::Clock => Position { x: pos.y, y: (s - pos.x) as u16 },
    }
}

/// The turn that undoes `flip`.
pub open spec fn inverse(flip: Flip) -> Flip {
    match flip {
        Flip::Horizontal => Flip::Horizontal,
        Flip::CounterClock => Flip::Clock,
        Flip::Clock => Flip::CounterClock,
    }
}

/// The turn that brings `mv` to a move toward column 0; none for `Left`.
pub open spec fn toward(mv: Move) -> Option<Flip> {
    match mv {
        Move::Left => None,
        Move::Right => Some(Flip::Horizontal),
        Move::Up => Some(Flip::Clock),
        Move::Down => Some(Flip::CounterClock),
    }
}

/// `pos` as the resolver sees it when the player asks for `mv`.
pub open spec fn to_canonical(mv: Move, size: u16, pos: Position) -> Position {
    match toward(mv) {
        None => pos,
        Some(flip) => flipped(flip, size, pos),
    }
}

/// The cell of the player's board that the resolver calls `pos` under `mv`.
pub open spec fn from_canonical(mv: Move, size: u16, pos: Position) -> Position {
    match toward(mv) {
        None => pos,
        Some(flip) => flipped(inverse(flip), size, pos),
    }
}

/// A store with every cell turned; the tiles keep their order.
pub open spec fn flip_tiles(flip: Flip, size: u16, tiles: Seq<(Position, Tile)>) -> Seq<
    (Position, Tile),
> {
    Seq::new(tiles.len(), |i: int| (flipped(flip, size, tiles[i].0), tiles[i].1))
}

/// A list of moves with both ends of every move turned.
pub open spec fn flip_moves(flip: Flip, size: u16, moves: Seq<(Position, Position)>) -> Seq<
    (Position, Position),
> {
    Seq::new(
        moves.len(),
        |i: int| (flipped(flip, size, moves[i].0), flipped(flip, size, moves[i].1)),
    )
}

/// A store as the resolver sees it under `mv`.
pub open spec fn tiles_to_canonical(mv: Move, size: u16, tiles: Seq<(Position, Tile)>) -> Seq<
    (Position, Tile),
> {
    Seq::new(tiles.len(), |i: int| (to_canonical(mv, size, tiles[i].0), tiles[i].1))
}

/// Moves of the resolver's board, read on the player's board.
pub open spec fn moves_from_canonical(
    mv: Move,
    size: u16,
    moves: Seq<(Position, Position)>,
) -> Seq<(Position, Position)> {
    Seq::new(
        moves.len(),
        |i: int| (from_canonical(mv, size, moves[i].0), from_canonical(mv, size, moves[i].1)),
    )
}

/// A turn keeps a cell on the board, and its inverse brings the cell back.
pub proof fn lemma_flip_back(flip: Flip, size: u16, pos: Position)
    requires
        pos.x < size,
        pos.y < size,
    ensures
        flipped(flip, size, pos).x < size,
        flipped(flip, size, pos).y < size,
        flipped(inverse(flip), size, flipped(flip, size, pos)) == pos,
        inverse(inverse(flip)) == flip,
{
}

/// Turning a cell toward the canonical direction and back yields the cell,
/// whichever of the four directions is asked for; so does turning it back
/// first. Both images stay on the board.
pub proof fn law_rotation_round_trip(mv: Move, size: u16, pos: Position)
    requires
        size >= 2,
        pos.x < size,
        pos.y < size,
    ensures
        from_canonical(mv, size, to_canonical(mv, size, pos)) == pos,
        to_canonical(mv, size, from_canonical(mv, size, pos)) == pos,
        to_canonical(mv, size, pos).x < size,
        to_canonical(mv, size, pos).y < size,
        from_canonical(mv, size, pos).x < size,
        from_canonical(mv, size, pos).y < size,
{
}

/// Turning a whole store and turning it back restores it, entry by entry.
pub proof fn lemma_flip_tiles_back(flip: Flip, size: u16, tiles: Seq<(Position, Tile)>)
    requires
        forall|i: int|
            0 <= i < tiles.len() ==> (#[trigger] tiles[i]).0.x < size && tiles[i].0.y < size,
    ensures
        flip_tiles(inverse(flip), size, flip_tiles(flip, size, tiles)) == tiles,
        forall|i: int|
            0 <= i < tiles.len() ==> (#[trigger] flip_tiles(flip, size, tiles)[i]).0.x < size
                && flip_tiles(flip, size, tiles)[i].0.y < size,
{
    let there = flip_tiles(flip, size, tiles);
    let back = flip_tiles(inverse(flip), size, there);
    assert forall|i: int| 0 <= i < tiles.len() implies back[i] == tiles[i] && (
    #[trigger] there[i]).0.x < size && there[i].0.y < size by {
        lemma_flip_back(flip, size, tiles[i].0);
    }
    assert(back =~= tiles);
}

/// Turning a list of moves and turning it back restores it.
pub proof fn lemma_flip_moves_back(flip: Flip, size: u16, moves: Seq<(Position, Position)>)
    requires
        forall|i: int|
            0 <= i < moves.len() ==> (#[trigger] moves[i]).0.x < size && moves[i].0.y < size
                && moves[i].1.x < size && moves[i].1.y < size,
    ensures
        flip_moves(inverse(flip), size, flip_moves(flip, size, moves)) == moves,
        forall|i: int|
            0 <= i < moves.len() ==> (#[trigger] flip_moves(flip, size, moves)[i]).0.x < size
                && flip_moves(flip, size, moves)[i].0.y < size && flip_moves(
                flip,
                size,
                moves,
            )[i].1.x < size && flip_moves(flip, size, moves)[i].1.y < size,
{
    let there = flip_moves(flip, size, moves);
    let back = flip_moves(inverse(flip), size, there);
    assert forall|i: int| 0 <= i < moves.len() implies back[i] == moves[i] && (
    #[trigger] there[i]).0.x < size && there[i].0.y < size && there[i].1.x < size
        && there[i].1.y < size by {
        lemma_flip_back(flip, size, moves[i].0);
        lemma_flip_back(flip, size, moves[i].1);
    }
    assert(back =~= moves);
}

/// The cell that `pos` becomes when a board whose last index is `s` is turned.
pub fn flip_position(flip: Flip, s: u16, pos: Position) -> (r: Position)
    requires
        pos.x <= s,
        pos.y <= s,
        s < u16::MAX,
    ensures
        r == flipped(flip, (s + 1) as u16, pos),
{
    match flip {
        Flip::Horizontal => Position::new(s - pos.x, pos.y),
        Flip::CounterClock => Position::new(s - pos.y, pos.x),
        Flip::Clock => Position::new(pos.y, s - pos.x),
    }
}

impl Grid {
    /// Turns the whole board: every placed tile and both ends of every move
    /// in flight go to the cell that `flip` sends them to. Values, drawing
    /// coordinates and the order of both lists stay.
    pub fn flip(&mut self, flip: Flip)
        requires
            old(self).size >= 1,
            old(self)@.all_on_board(),
        ensures
            final(self)@ == (GridView {
                tiles: flip_tiles(flip, old(self).size, old(self).tiles@),
                moving_tiles: flip_moves(flip, old(self).size, old(self).moving_tiles@),
                ..old(self)@
            }),
    {
        let s: u16 = self.size - 1;
        let mut i: usize = 0;
        while i < self.moving_tiles.len()
            invariant
                s == self.size - 1,
                i <= self.moving_tiles.len(),
                self.moving_tiles@.len() == old(self).moving_tiles@.len(),
                old(self)@.all_on_board(),
                self@ == old(self)@.with_moving(self.moving_tiles@),
                forall|j: int|
                    0 <= j < i ==> (#[trigger] self.moving_tiles@[j]) == flip_moves(
                        flip,
                        self.size,
                        old(self).moving_tiles@,
                    )[j],
                forall|j: int|
                    i <= j < self.moving_tiles.len() ==> (#[trigger] self.moving_tiles@[j]) == old(
                        self,
                    ).moving_tiles@[j],
            decreases self.moving_tiles.len() - i,
        {
            let (pos, new_pos) = self.moving_tiles[i];
            assert(old(self)@.on_board(old(self)@.moving_tiles[i as int].0));
            self.moving_tiles[i] = (flip_position(flip, s, pos), flip_position(flip, s, new_pos));
            i += 1;
        }
        assert(self.moving_tiles@ =~= flip_moves(flip, self.size, old(self).moving_tiles@));
        let mut k: usize = 0;
        while k < self.tiles.len()
            invariant
                s == self.size - 1,
                k <= self.tiles.len(),
                self.tiles@.len() == old(self).tiles@.len(),
                old(self)@.all_on_board(),
                self@ == (GridView {
                    tiles: self.tiles@,
                    moving_tiles: flip_moves(flip, old(self).size, old(self).moving_tiles@),
                    ..old(self)@
                }),
                forall|j: int|
                    0 <= j < k ==> (#[trigger] self.tiles@[j]) == flip_tiles(
                        flip,
                        self.size,
                        old(self).tiles@,
                    )[j],
                forall|j: int|
                    k <= j < self.tiles.len() ==> (#[trigger] self.tiles@[j]) == old(
                        self,
                    ).tiles@[j],
            decreases self.tiles.len() - k,
        {
            let (pos, tile) = self.tiles[k];
            assert(old(self)@.on_board(old(self)@.tiles[k as int].0));
            self.tiles[k] = (flip_position(flip, s, pos), tile);
            k += 1;
        }
        assert(self.tiles@ =~= flip_tiles(flip, self.size, old(self).tiles@));
    }
}

} // verus!
