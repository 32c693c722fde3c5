//! The game wrapper: turn bookkeeping and an append-only move log around
//! one board position.
//!
//! By design, `play_move` checks only bounds and occupancy before
//! committing.  The full suicide/ko predicate is exposed separately
//! through `is_valid_move`, so that callers can pre-validate and preview
//! a move before committing it.

use vstd::prelude::*;

use crate::model::{cells_after_move, coord_valid, index_of, ko_after_move, move_is_legal};
use crate::player::{opposite_of, Player};
use crate::position::GoPosition;

verus! {

/// One recorded ply: a stone placed at a point, or a pass.
#[derive(Clone, Copy, Debug, PartialEq, Eq, Structural)]
pub enum Move {
    Pass { player: Player, half_turn: usize },
    Play { player: Player, x: usize, y: usize, half_turn: usize },
}

/// Why `play_move` rejected a move.
#[derive(Clone, Copy, Debug, PartialEq, Eq, Structural)]
pub enum MoveError {
    /// The coordinate lies outside the board.
    OutOfBounds,
    /// The target cell already holds a stone.
    Occupied,
}

/// A game of Go: one position together with the current player, the ply
/// and turn counters, and the append-only move history.
pub struct GoGame {
    move_history: Vec<Move>,
    position: GoPosition,
    turn: usize,
    half_turn: usize,
    first_player: Player,
    next_player: Player,
}

impl GoGame {
    /// The wrapped position.
    pub closed spec fn pos_spec(&self) -> GoPosition {
        self.position
    }

    /// The recorded plies, oldest first.
    pub closed spec fn history_seq(&self) -> Seq<Move> {
        self.move_history@
    }

    /// The full-turn counter.
    pub closed spec fn turn_spec(&self) -> int {
        self.turn as int
    }

    /// The ply counter.
    pub closed spec fn half_turn_spec(&self) -> int {
        self.half_turn as int
    }

    /// The color that moved (or would have moved) first.
    pub closed spec fn first_player_spec(&self) -> Player {
        self.first_player
    }

    /// The color on turn.
    pub closed spec fn next_player_spec(&self) -> Player {
        self.next_player
    }

    /// Game invariant: a well-formed position, real colors on both player
    /// fields, and one history entry per ply.
    pub open spec fn wf(&self) -> bool {
        &&& self.pos_spec().wf()
        &&& self.first_player_spec().is_stone()
        &&& self.next_player_spec().is_stone()
        &&& self.history_seq().len() == self.half_turn_spec()
    }

    /// A fresh game: an empty board of the given size, no ko, no history,
    /// counters at zero, Black to move.
    pub fn new(board_size: usize) -> (r: GoGame)
        requires
            board_size >= 1,
            board_size * board_size <= usize::MAX,
        ensures
            r.wf(),
            r.pos_spec().size() == board_size,
            r.pos_spec().cells_seq() =~= Seq::new(
                (board_size * board_size) as nat,
                |i: int| Player::Empty,
            ),
            r.pos_spec().ko_spec() is None,
            r.history_seq() =~= Seq::<Move>::empty(),
            r.turn_spec() == 0,
            r.half_turn_spec() == 0,
            r.first_player_spec() == Player::Black,
            r.next_player_spec() == Player::Black,
    {
        GoGame {
            move_history: Vec::new(),
            position: GoPosition::new(board_size),
            turn: 0,
            half_turn: 0,
            first_player: Player::Black,
            next_player: Player::Black,
        }
    }

    /// The board edge length.
    pub fn board_size(&self) -> (r: usize)
        ensures
            r as int == self.pos_spec().size(),
    {
        self.position.board_size()
    }

    /// Read-only view of the flat cell sequence.
    pub fn position(&self) -> (r: &Vec<Player>)
        ensures
            r@ == self.pos_spec().cells_seq(),
    {
        self.position.position()
    }

    /// The color on turn.
    pub fn next_player(&self) -> (r: Player)
        ensures
            r == self.next_player_spec(),
    {
        self.next_player
    }

    /// The color that moved first.
    pub fn first_player(&self) -> (r: Player)
        ensures
            r == self.first_player_spec(),
    {
        self.first_player
    }

    /// The full-turn counter.
    pub fn turn(&self) -> (r: usize)
        ensures
            r as int == self.turn_spec(),
    {
        self.turn
    }

    /// The ply counter.
    pub fn half_turn(&self) -> (r: usize)
        ensures
            r as int == self.half_turn_spec(),
    {
        self.half_turn
    }

    /// Read-only view of the move history.
    pub fn move_history(&self) -> (r: &Vec<Move>)
        ensures
            r@ == self.history_seq(),
    {
        &self.move_history
    }

    /// Row-major index of an on-board point.
    pub fn coord_to_index(&self, x: usize, y: usize) -> (r: usize)
        requires
            self.wf(),
            coord_valid(self.pos_spec().size(), x as int, y as int),
        ensures
            r as int == index_of(self.pos_spec().size(), x as int, y as int),
    {
        self.position.coord_to_index(x, y)
    }

    /// The point of an on-board row-major index.
    pub fn index_to_coord(&self, index: usize) -> (r: (usize, usize))
        requires
            self.wf(),
            (index as int) < self.pos_spec().size() * self.pos_spec().size(),
        ensures
            coord_valid(self.pos_spec().size(), r.0 as int, r.1 as int),
            index_of(self.pos_spec().size(), r.0 as int, r.1 as int) == index as int,
    {
        self.position.index_to_coord(index)
    }

    /// Full legality check for the hovered point, for previewing: bounds,
    /// occupancy, suicide and ko.  Leaves the game unchanged.
    pub fn is_valid_move(&mut self, x: usize, y: usize, player: Player) -> (r: bool)
        requires
            old(self).wf(),
        ensures
            final(self).wf(),
            final(self).pos_spec().size() == old(self).pos_spec().size(),
            final(self).pos_spec().cells_seq() == old(self).pos_spec().cells_seq(),
            final(self).pos_spec().ko_spec() == old(self).pos_spec().ko_spec(),
            final(self).history_seq() == old(self).history_seq(),
            final(self).turn_spec() == old(self).turn_spec(),
            final(self).half_turn_spec() == old(self).half_turn_spec(),
            final(self).first_player_spec() == old(self).first_player_spec(),
            final(self).next_player_spec() == old(self).next_player_spec(),
            r == move_is_legal(
                old(self).pos_spec().cells_seq(),
                old(self).pos_spec().size(),
                old(self).pos_spec().ko_spec(),
                x as int,
                y as int,
                player,
            ),
    {
        self.position.is_valid_move(x, y, player)
    }

    /// Advances the turn state by one ply: bump the ply counter, bump the
    /// full-turn counter when the mover was the first player, and hand
    /// the turn to the opposing color.
    fn incr_turn(&mut self)
        requires
            old(self).half_turn_spec() < usize::MAX,
            old(self).turn_spec() < usize::MAX,
        ensures
            final(self).pos_spec() == old(self).pos_spec(),
            final(self).history_seq() == old(self).history_seq(),
            final(self).first_player_spec() == old(self).first_player_spec(),
            final(self).half_turn_spec() == old(self).half_turn_spec() + 1,
            final(self).turn_spec() == old(self).turn_spec() + (if old(self).next_player_spec()
                == old(self).first_player_spec() {
                1int
            } else {
                0int
            }),
            final(self).next_player_spec() == opposite_of(old(self).next_player_spec()),
    {
        if self.next_player == self.first_player {
            self.turn = self.turn + 1;
        }
        self.half_turn = self.half_turn + 1;
        self.next_player = self.next_player.opposite();
    }

    /// Records a pass for the color on turn and advances the turn state.
    /// Always succeeds; the grid and the ko marker are untouched.
    pub fn pass(&mut self)
        requires
            old(self).wf(),
            old(self).half_turn_spec() < usize::MAX,
            old(self).turn_spec() < usize::MAX,
        ensures
            final(self).wf(),
            final(self).pos_spec() == old(self).pos_spec(),
            final(self).history_seq() == old(self).history_seq().push(
                Move::Pass {
                    player: old(self).next_player_spec(),
                    half_turn: old(self).half_turn_spec() as usize,
                },
            ),
            final(self).half_turn_spec() == old(self).half_turn_spec() + 1,
            final(self).turn_spec() == old(self).turn_spec() + (if old(self).next_player_spec()
                == old(self).first_player_spec() {
                1int
            } else {
                0int
            }),
            final(self).next_player_spec() == opposite_of(old(self).next_player_spec()),
            final(self).first_player_spec() == old(self).first_player_spec(),
    {
        let record: Move = Move::Pass { player: self.next_player, half_turn: self.half_turn };
        self.move_history.push(record);
        self.incr_turn();
    }

    /// Commits a move at `(x, y)` for the color on turn: records it,
    /// applies it to the position (placing the stone and resolving
    /// captures and ko), and advances the turn state.
    ///
    /// Only bounds and occupancy are checked here; on failure the game
    /// is unchanged.  Suicide and ko are deliberately left to the
    /// caller's pre-check through `is_valid_move`.
    pub fn play_move(&mut self, x: usize, y: usize) -> (r: Result<(), MoveError>)
        requires
            old(self).wf(),
            old(self).half_turn_spec() < usize::MAX,
            old(self).turn_spec() < usize::MAX,
        ensures
            final(self).wf(),
            !coord_valid(old(self).pos_spec().size(), x as int, y as int) ==> r == Err::<
                (),
                MoveError,
            >(MoveError::OutOfBounds) && *final(self) == *old(self),
            coord_valid(old(self).pos_spec().size(), x as int, y as int) && old(
                self,
            ).pos_spec().cells_seq()[index_of(old(self).pos_spec().size(), x as int, y as int)]
                != Player::Empty ==> r == Err::<(), MoveError>(MoveError::Occupied) && *final(self)
                == *old(self),
            coord_valid(old(self).pos_spec().size(), x as int, y as int) && old(
                self,
            ).pos_spec().cells_seq()[index_of(old(self).pos_spec().size(), x as int, y as int)]
                == Player::Empty ==> {
                &&& r == Ok::<(), MoveError>(())
                &&& final(self).pos_spec().size() == old(self).pos_spec().size()
                &&& final(self).pos_spec().cells_seq() == cells_after_move(
                    old(self).pos_spec().cells_seq(),
                    old(self).pos_spec().size(),
                    x as int,
                    y as int,
                    old(self).next_player_spec(),
                )
                &&& final(self).pos_spec().ko_spec() == ko_after_move(
                    old(self).pos_spec().cells_seq(),
                    old(self).pos_spec().size(),
                    x as int,
                    y as int,
                    old(self).next_player_spec(),
                )
                &&& final(self).history_seq() == old(self).history_seq().push(
                    Move::Play {
                        player: old(self).next_player_spec(),
                        x,
                        y,
                        half_turn: old(self).half_turn_spec() as usize,
                    },
                )
                &&& final(self).half_turn_spec() == old(self).half_turn_spec() + 1
                &&& final(self).turn_spec() == old(self).turn_spec() + (if old(
                    self,
                ).next_player_spec() == old(self).first_player_spec() {
                    1int
                } else {
                    0int
                })
                &&& final(self).next_player_spec() == opposite_of(old(self).next_player_spec())
                &&& final(self).first_player_spec() == old(self).first_player_spec()
            },
    {
        if !self.position.coord_is_valid(x, y) {
            return Err(MoveError::OutOfBounds);
        }
        let index: usize = self.position.coord_to_index(x, y);
        let cells: &Vec<Player> = self.position.position();
        let cell: Player = cells[index];
        if !matches!(cell, Player::Empty) {
            return Err(MoveError::Occupied);
        }
        let mover: Player = self.next_player;
        let record: Move = Move::Play { player: mover, x, y, half_turn: self.half_turn };
        self.move_history.push(record);
        self.position.process_move(x, y, mover);
        self.incr_turn();
        Ok(())
    }
}

impl Default for GoGame {
    /// The customary full-size board.
    fn default() -> (r: GoGame)
        ensures
            r.wf(),
            r.pos_spec().size() == 19,
            r.next_player_spec() == Player::Black,
    {
        GoGame::new(19)
    }
}

} // verus!
