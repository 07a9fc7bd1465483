//! The move-application pipeline and the board state machine.
//!
//! `Board::move_troop` validates a proposed move in a fixed order — occupied
//! origin, turn, friendly fire, piece geometry, king safety — then performs
//! it and advances the turn/check state.  The whole outcome, including which
//! error is reported for every rejected move, is pinned down by the spec
//! functions [`move_error`] and [`move_ok`].

use vstd::prelude::*;

use crate::geometry::attack_pair;
use crate::geometry::diag_aligned;
use crate::geometry::in_check;
use crate::geometry::reach;
use crate::geometry::sq_troop;
use crate::generator::own_squares;
use crate::generator::pos_in;
use crate::model::lemma_sq_idx_bounds;
use crate::model::lemma_wf_update;
use crate::model::opposite;
use crate::model::other;
use crate::model::sq_idx;
use crate::model::square_index;
use crate::model::starting_troop;
use crate::model::Board;
use crate::model::BoardState;
use crate::model::Color;
use crate::model::Error;
use crate::model::MoveError;
use crate::model::Piece;
use crate::model::Position;
use crate::model::Square;
use crate::model::SquareOccupied;
use crate::model::Troop;

verus! {

/// The side that the state permits to move, if any: `ToMove(c)` and
/// `Check(c)` permit `c`; the terminal states permit no one.
pub open spec fn to_play(s: BoardState) -> Option<Color> {
    match s {
        BoardState::ToMove(c) => Some(c),
        BoardState::Check(c) => Some(c),
        _ => None,
    }
}

/// Whether the state permits `team` to move.
pub open spec fn can_move_spec(s: BoardState, team: Color) -> bool {
    to_play(s) == Some(team)
}

impl BoardState {
    /// Whether this state permits `team` to move.
    pub fn can_move(&self, team: Color) -> (permitted: bool)
        ensures
            permitted == can_move_spec(*self, team),
    {
        match self {
            BoardState::ToMove(color) => *color == team,
            BoardState::Check(color) => *color == team,
            _ => false,
        }
    }
}

/// The square sequence after moving `mover` from `from` to `to`: the
/// destination holds the mover with its position updated, the origin is
/// cleared, and no other square changes.
pub open spec fn squares_after(
    s: Seq<Square>,
    from: Position,
    to: Position,
    mover: Troop,
) -> Seq<Square> {
    s.update(
        sq_idx(to),
        Square {
            position: to,
            troop: Some(Troop { piece: mover.piece, color: mover.color, position: to }),
        },
    ).update(sq_idx(from), Square { position: from, troop: None })
}

/// The state after a successful move by `mover`: the opposing side is to
/// move, in check if one of the mover's troops now reaches its king.
pub open spec fn next_state(s: Seq<Square>, mover: Color) -> BoardState {
    if in_check(s, other(mover)) {
        BoardState::Check(other(mover))
    } else {
        BoardState::ToMove(other(mover))
    }
}

/// Which rejection, if any, `move_troop(from, to)` reports on board `b`,
/// following the pipeline's check order: empty origin, turn, friendly fire,
/// bishop geometry, reachability, king safety.  `None` means the move is
/// performed.
pub open spec fn move_error(b: Board, from: Position, to: Position) -> Option<MoveError> {
    match b.troop_at(from) {
        None => Some(MoveError::EmptyStartingSquare),
        Some(mover) => {
            if to_play(b.state) != Some(mover.color) {
                Some(MoveError::NotYourTurn)
            } else if b.troop_at(to) matches Some(t) && t.color == mover.color {
                Some(MoveError::FriendlyFire)
            } else if mover.piece is Bishop && !diag_aligned(from, to) {
                Some(MoveError::InvalidPath("Bishop must move in a purely diagonal line"))
            } else if !reach(b.squares@, mover, to) {
                if mover.piece is Bishop {
                    Some(MoveError::PathIsBlocked)
                } else {
                    Some(MoveError::Other)
                }
            } else if in_check(squares_after(b.squares@, from, to, mover), mover.color) {
                Some(MoveError::Other)
            } else {
                None
            }
        },
    }
}

/// Whether the reported error `e` is the move error `m`: the same variant,
/// and for the bishop-geometry kind the same message text.
pub open spec fn reports(e: Error, m: MoveError) -> bool {
    match (e, m) {
        (Error::Move(MoveError::InvalidPath(s1)), MoveError::InvalidPath(s2)) => s1@ == s2@,
        (Error::Move(m1), m2) => m1 == m2,
        _ => false,
    }
}

/// The full effect of a successful `move_troop(from, to)` taking `pre` to
/// `post`: no check of [`move_error`] fails, exactly the two squares change
/// as [`squares_after`] says, and the state advances per [`next_state`].
pub open spec fn move_ok(pre: Board, from: Position, to: Position, post: Board) -> bool {
    &&& move_error(pre, from, to) is None
    &&& pre.troop_at(from) matches Some(mover) && {
        &&& post.squares@ == squares_after(pre.squares@, from, to, mover)
        &&& post.state == next_state(post.squares@, mover.color)
    }
}

/// Whether some square of `moves` carries position `p`.
fn contains_position(moves: &Vec<Square>, p: Position) -> (found: bool)
    ensures
        found == pos_in(moves@, p),
{
    let mut i: usize = 0;
    while i < moves.len()
        invariant
            i <= moves@.len(),
            forall|j: int| 0 <= j < i as int ==> moves@[j].position != p,
        decreases moves@.len() - i as int,
    {
        let sq = moves[i];
        if sq.position == p {
            assert(moves@[i as int].position == p);
            return true;
        }
        i = i + 1;
    }
    false
}

impl Board {
    /// Whether the side `color` is in check on this board: some opposing
    /// troop's legal destinations include a square holding a king of that
    /// color.
    pub fn is_in_check(&self, color: Color) -> (checked: bool)
        requires
            self.wf(),
        ensures
            checked == in_check(self.squares@, color),
    {
        let ghost s = self.squares@;
        let mut i: usize = 0;
        while i < 64
            invariant
                self.wf(),
                s == self.squares@,
                i <= 64,
                forall|pa: Position, pk: Position|
                    sq_idx(pa) < i as int ==> !#[trigger] attack_pair(s, color, pa, pk),
            decreases 64 - i as int,
        {
            let sq = self.squares[i];
            let ghost pai = sq.position;
            proof {
                lemma_sq_idx_bounds(pai);
                assert(sq_idx(pai) == i as int);
                assert(sq_troop(s, pai) == sq.troop);
            }
            let attacker = match sq.troop {
                Some(t) => {
                    if t.color != color {
                        Some(t)
                    } else {
                        None
                    }
                },
                None => None,
            };
            if let Some(att) = attacker {
                let mvs = self.valid_moves(&att);
                let mut j: usize = 0;
                while j < mvs.len()
                    invariant
                        self.wf(),
                        s == self.squares@,
                        j <= mvs@.len(),
                        own_squares(mvs@, s),
                        forall|p: Position| pos_in(mvs@, p) <==> reach(s, att, p),
                        sq_troop(s, pai) == Some(att),
                        att.color != color,
                        forall|jj: int|
                            0 <= jj < j as int ==> !((#[trigger] mvs@[jj]).troop matches Some(k)
                                && k.piece is King && k.color == color),
                    decreases mvs@.len() - j as int,
                {
                    let msq = mvs[j];
                    let is_king = match msq.troop {
                        Some(k) => k.piece == Piece::King && k.color == color,
                        None => false,
                    };
                    if is_king {
                        proof {
                            assert(mvs@[j as int].position == msq.position);
                            assert(pos_in(mvs@, msq.position));
                            assert(msq == s[sq_idx(msq.position)]);
                            assert(attack_pair(s, color, pai, msq.position));
                        }
                        return true;
                    }
                    j = j + 1;
                }
                proof {
                    assert forall|pk: Position| !attack_pair(s, color, pai, pk) by {
                        if attack_pair(s, color, pai, pk) {
                            assert(reach(s, att, pk));
                            assert(pos_in(mvs@, pk));
                            let jj = choose|jj: int|
                                0 <= jj < mvs@.len() && mvs@[jj].position == pk;
                            assert(mvs@[jj] == s[sq_idx(pk)]);
                        }
                    }
                }
            } else {
                proof {
                    assert forall|pk: Position| !attack_pair(s, color, pai, pk) by {}
                }
            }
            proof {
                assert forall|pa: Position, pk: Position|
                    sq_idx(pa) < i as int + 1 implies !#[trigger] attack_pair(s, color, pa, pk) by {
                    if sq_idx(pa) == i as int {
                        lemma_sq_idx_bounds(pa);
                        assert(pa == pai);
                    }
                }
            }
            i = i + 1;
        }
        proof {
            assert(!in_check(s, color)) by {
                if in_check(s, color) {
                    let (pa, pk) = choose|pa: Position, pk: Position|
                        attack_pair(s, color, pa, pk);
                    lemma_sq_idx_bounds(pa);
                }
            }
        }
        false
    }

    /// Applies a move.  The checks run in a fixed order and the first
    /// failure is reported; a failed move leaves the board unchanged.  On
    /// success exactly the two squares change, the moved troop's stored
    /// position is updated, and the turn passes to the other side — as a
    /// plain turn, or as `Check` if that side's king is now attacked.  A
    /// move that would leave the mover's own king attacked is rejected.
    pub fn move_troop(&mut self, from: Position, to: Position) -> (result: Result<(), Error>)
        requires
            old(self).wf(),
        ensures
            final(self).wf(),
            match result {
                Ok(()) => move_ok(*old(self), from, to, *final(self)),
                Err(e) => {
                    &&& final(self).squares@ == old(self).squares@
                    &&& final(self).state == old(self).state
                    &&& move_error(*old(self), from, to) matches Some(m) && reports(e, m)
                },
            },
    {
        let ghost pre = *self;
        proof {
            lemma_sq_idx_bounds(from);
            lemma_sq_idx_bounds(to);
        }
        let from_sq = *self.get_square(&from);
        let mover = match from_sq.troop {
            None => {
                return Err(Error::Move(MoveError::EmptyStartingSquare));
            },
            Some(t) => t,
        };
        proof {
            assert(mover.position == from);
        }
        if !self.state.can_move(mover.color) {
            return Err(Error::Move(MoveError::NotYourTurn));
        }
        let to_sq = *self.get_square(&to);
        if let Some(t) = to_sq.troop {
            if t.color == mover.color {
                return Err(Error::Move(MoveError::FriendlyFire));
            }
        }
        let is_bishop = mover.piece == Piece::Bishop;
        if is_bishop {
            let df = to.file.index() as i16 - from.file.index() as i16;
            let dr = to.rank.index() as i16 - from.rank.index() as i16;
            if df == 0 || (dr != df && dr != -df) {
                return Err(
                    Error::Move(MoveError::InvalidPath("Bishop must move in a purely diagonal line")),
                );
            }
        }
        let mvs = self.valid_moves(&mover);
        if !contains_position(&mvs, to) {
            if is_bishop {
                return Err(Error::Move(MoveError::PathIsBlocked));
            }
            return Err(Error::Move(MoveError::Other));
        }
        // Perform the move, then reject it if it leaves the mover's own king
        // attacked.
        let moved = Troop { piece: mover.piece, color: mover.color, position: to };
        let ti = square_index(&to);
        let fi = square_index(&from);
        self.squares[ti] = Square { position: to, troop: Some(moved) };
        proof {
            lemma_wf_update(pre.squares@, self.squares@, to, Square { position: to, troop: Some(moved) });
        }
        let ghost mid = *self;
        self.squares[fi] = Square { position: from, troop: None };
        proof {
            lemma_wf_update(mid.squares@, self.squares@, from, Square { position: from, troop: None });
            assert(self.squares@ == squares_after(pre.squares@, from, to, mover));
        }
        if self.is_in_check(mover.color) {
            self.squares[fi] = from_sq;
            self.squares[ti] = to_sq;
            proof {
                assert(self.squares@ =~= pre.squares@);
            }
            return Err(Error::Move(MoveError::Other));
        }
        let opp = opposite(mover.color);
        let check_now = self.is_in_check(opp);
        self.state = if check_now {
            BoardState::Check(opp)
        } else {
            BoardState::ToMove(opp)
        };
        Ok(())
    }

    /// Reinitializes the board to the standard starting position.
    pub fn reset(&mut self)
        ensures
            final(self).wf(),
            final(self).state == BoardState::ToMove(Color::White),
            forall|p: Position| final(self).troop_at(p) == starting_troop(p),
    {
        *self = Board::default();
    }

    /// Removes and returns the occupant of a square.
    pub fn remove_troop(&mut self, position: Position) -> (removed: Option<Troop>)
        requires
            old(self).wf(),
        ensures
            final(self).wf(),
            removed == old(self).troop_at(position),
            final(self).squares@ == old(self).squares@.update(
                sq_idx(position),
                Square { position: position, troop: None },
            ),
            final(self).state == old(self).state,
    {
        let ghost pre = *self;
        proof {
            lemma_sq_idx_bounds(position);
        }
        let i = square_index(&position);
        let sq = self.squares[i];
        self.squares[i] = Square { position: position, troop: None };
        proof {
            lemma_wf_update(pre.squares@, self.squares@, position, Square { position: position, troop: None });
        }
        sq.troop
    }

    /// Places a troop on the square its stored position names, failing if
    /// that square is occupied.
    pub fn place_troop(&mut self, troop: Troop) -> (result: Result<(), SquareOccupied>)
        requires
            old(self).wf(),
        ensures
            final(self).wf(),
            final(self).state == old(self).state,
            match result {
                Ok(()) => {
                    &&& old(self).troop_at(troop.position) is None
                    &&& final(self).squares@ == old(self).squares@.update(
                        sq_idx(troop.position),
                        Square { position: troop.position, troop: Some(troop) },
                    )
                },
                Err(_) => {
                    &&& old(self).troop_at(troop.position) is Some
                    &&& final(self).squares@ == old(self).squares@
                },
            },
    {
        let ghost pre = *self;
        proof {
            lemma_sq_idx_bounds(troop.position);
        }
        let i = square_index(&troop.position);
        if self.squares[i].troop.is_some() {
            return Err(SquareOccupied);
        }
        self.squares[i] = Square { position: troop.position, troop: Some(troop) };
        proof {
            lemma_wf_update(
                pre.squares@,
                self.squares@,
                troop.position,
                Square { position: troop.position, troop: Some(troop) },
            );
        }
        Ok(())
    }

    /// Replaces the occupant of a square, returning the previous one.  The
    /// new troop must carry the coordinate of the square it is placed on.
    pub fn replace_troop(&mut self, position: Position, troop: Troop) -> (replaced: Option<Troop>)
        requires
            old(self).wf(),
            troop.position == position,
        ensures
            final(self).wf(),
            replaced == old(self).troop_at(position),
            final(self).squares@ == old(self).squares@.update(
                sq_idx(position),
                Square { position: position, troop: Some(troop) },
            ),
            final(self).state == old(self).state,
    {
        let ghost pre = *self;
        proof {
            lemma_sq_idx_bounds(position);
        }
        let i = square_index(&position);
        let sq = self.squares[i];
        self.squares[i] = Square { position: position, troop: Some(troop) };
        proof {
            lemma_wf_update(pre.squares@, self.squares@, position, Square { position: position, troop: Some(troop) });
        }
        sq.troop
    }

    /// Overwrites the game state, leaving the squares untouched.
    pub fn set_state(&mut self, state: BoardState)
        ensures
            final(self).squares@ == old(self).squares@,
            final(self).state == state,
    {
        self.state = state;
    }
}

} // verus!
