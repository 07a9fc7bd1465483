//! Movement geometry, stated over the board's square sequence.
//!
//! Each piece kind gets one spec predicate saying when a troop of that kind
//! standing at one coordinate may move to another, given the occupancy.  The
//! predicates are the single source of truth for move legality: the
//! executable generator is proved to enumerate exactly the positions they
//! admit, and the move pipeline is proved to accept exactly those moves.
//!
//! Coordinates here are zero-based integers (file, rank); a `Position` is
//! always on the board, so a rule's target is on the board by construction.

use vstd::prelude::*;

use crate::model::file_ord;
use crate::model::on_board;
use crate::model::rank_ord;
use crate::model::Color;
use crate::model::Piece;
use crate::model::Position;
use crate::model::Square;
use crate::model::Troop;

verus! {

/// Whether the square at zero-based coordinates `(f, r)` is occupied.
pub open spec fn occ(s: Seq<Square>, f: int, r: int) -> bool
    recommends
        on_board(f, r),
{
    s[f * 8 + r].troop is Some
}

/// Whether the square at `(f, r)` holds a troop of the side opposing `c`.
pub open spec fn hostile(s: Seq<Square>, c: Color, f: int, r: int) -> bool
    recommends
        on_board(f, r),
{
    s[f * 8 + r].troop matches Some(t) && t.color != c
}

/// Whether a troop of color `c` may land on `(f, r)`: the square is empty or
/// holds an opposing troop (a capture).
pub open spec fn free_or_hostile(s: Seq<Square>, c: Color, f: int, r: int) -> bool
    recommends
        on_board(f, r),
{
    !occ(s, f, r) || hostile(s, c, f, r)
}

/// Whether `x` lies strictly between `a` and `b` (in either order).
pub open spec fn strictly_between(a: int, x: int, b: int) -> bool {
    a < x < b || b < x < a
}

/// Whether `(f, r)` lies strictly between `(f0, r0)` and `(f1, r1)` on the
/// rank, file or diagonal line joining them.  False whenever the endpoints
/// share no such line.
pub open spec fn seg_between(f0: int, r0: int, f1: int, r1: int, f: int, r: int) -> bool {
    ||| (r0 == r1 && r == r0 && strictly_between(f0, f, f1))
    ||| (f0 == f1 && f == f0 && strictly_between(r0, r, r1))
    ||| (r1 - r0 == f1 - f0 && r - r0 == f - f0 && strictly_between(f0, f, f1))
    ||| (r1 - r0 == -(f1 - f0) && r - r0 == -(f - f0) && strictly_between(f0, f, f1))
}

/// Whether every square strictly between the two coordinates on their shared
/// line is empty.
pub open spec fn path_clear(s: Seq<Square>, f0: int, r0: int, f1: int, r1: int) -> bool {
    forall|f: int, r: int| seg_between(f0, r0, f1, r1, f, r) ==> !occ(s, f, r)
}

/// Rook rule: same file or same rank (not both), every square strictly
/// between empty, and the destination empty or a capture.
pub open spec fn rook_rule(s: Seq<Square>, c: Color, f0: int, r0: int, f1: int, r1: int) -> bool {
    &&& ((f1 == f0 && r1 != r0) || (r1 == r0 && f1 != f0))
    &&& path_clear(s, f0, r0, f1, r1)
    &&& free_or_hostile(s, c, f1, r1)
}

/// Bishop rule: a different square on one of the two diagonals through the
/// origin, every square strictly between empty, and the destination empty or
/// a capture.
pub open spec fn bishop_rule(s: Seq<Square>, c: Color, f0: int, r0: int, f1: int, r1: int) -> bool {
    &&& f1 != f0
    &&& (r1 - r0 == f1 - f0 || r1 - r0 == -(f1 - f0))
    &&& path_clear(s, f0, r0, f1, r1)
    &&& free_or_hostile(s, c, f1, r1)
}

/// Knight rule: one of the eight (1,2)/(2,1) offsets; intervening occupancy
/// is ignored entirely.
pub open spec fn knight_rule(s: Seq<Square>, c: Color, f0: int, r0: int, f1: int, r1: int) -> bool {
    &&& ((f1 - f0 == 1 || f1 - f0 == -1) && (r1 - r0 == 2 || r1 - r0 == -2)) || ((f1 - f0 == 2 || f1
        - f0 == -2) && (r1 - r0 == 1 || r1 - r0 == -1))
    &&& free_or_hostile(s, c, f1, r1)
}

/// King rule: one of the eight adjacent squares.  No castling.
pub open spec fn king_rule(s: Seq<Square>, c: Color, f0: int, r0: int, f1: int, r1: int) -> bool {
    &&& f0 - 1 <= f1 <= f0 + 1
    &&& r0 - 1 <= r1 <= r0 + 1
    &&& !(f1 == f0 && r1 == r0)
    &&& free_or_hostile(s, c, f1, r1)
}

/// Pawn rule: one step forward onto an empty square; two steps forward from
/// the home rank when both squares ahead are empty; one step diagonally
/// forward only as a capture.  White moves towards higher ranks from home
/// rank 2, Black towards lower ranks from home rank 7.  No en passant.
pub open spec fn pawn_rule(s: Seq<Square>, c: Color, f0: int, r0: int, f1: int, r1: int) -> bool {
    let dir: int = if c is White {
        1
    } else {
        -1
    };
    let home: int = if c is White {
        1
    } else {
        6
    };
    ||| (f1 == f0 && r1 == r0 + dir && !occ(s, f1, r1))
    ||| (f1 == f0 && r0 == home && r1 == r0 + 2 * dir && !occ(s, f0, r0 + dir) && !occ(s, f0, r1))
    ||| ((f1 == f0 + 1 || f1 == f0 - 1) && r1 == r0 + dir && hostile(s, c, f1, r1))
}

/// The legal-destination relation: whether `t`, standing at its stored
/// position on a board with squares `s`, may move to `to`.  Check and pin
/// legality are ignored here; the move pipeline layers king safety on top.
pub open spec fn reach(s: Seq<Square>, t: Troop, to: Position) -> bool {
    let f0 = file_ord(t.position.file);
    let r0 = rank_ord(t.position.rank);
    let f1 = file_ord(to.file);
    let r1 = rank_ord(to.rank);
    match t.piece {
        Piece::Pawn => pawn_rule(s, t.color, f0, r0, f1, r1),
        Piece::Knight => knight_rule(s, t.color, f0, r0, f1, r1),
        Piece::Bishop => bishop_rule(s, t.color, f0, r0, f1, r1),
        Piece::Rook => rook_rule(s, t.color, f0, r0, f1, r1),
        Piece::Queen => rook_rule(s, t.color, f0, r0, f1, r1) || bishop_rule(
            s,
            t.color,
            f0,
            r0,
            f1,
            r1,
        ),
        Piece::King => king_rule(s, t.color, f0, r0, f1, r1),
    }
}

/// Whether a troop of the side opposing `c` stands at `pa` and can reach
/// `pk`, where a king of color `c` stands.
pub open spec fn attack_pair(s: Seq<Square>, c: Color, pa: Position, pk: Position) -> bool {
    &&& sq_troop(s, pa) matches Some(att) && att.color != c && reach(s, att, pk)
    &&& sq_troop(s, pk) matches Some(king) && king.piece is King && king.color == c
}

/// Whether the side `c` is in check: some troop of the opposing side can
/// reach a square holding a king of color `c`.
pub open spec fn in_check(s: Seq<Square>, c: Color) -> bool {
    exists|pa: Position, pk: Position| #[trigger] attack_pair(s, c, pa, pk)
}

/// Whether `from` and `to` lie on a common diagonal (and differ); the
/// geometric precondition of a bishop move, ignoring occupancy.
pub open spec fn diag_aligned(from: Position, to: Position) -> bool {
    let f0 = file_ord(from.file);
    let r0 = rank_ord(from.rank);
    let f1 = file_ord(to.file);
    let r1 = rank_ord(to.rank);
    f1 != f0 && (r1 - r0 == f1 - f0 || r1 - r0 == -(f1 - f0))
}

/// The occupant of the square at position `p` in square sequence `s`.
pub open spec fn sq_troop(s: Seq<Square>, p: Position) -> Option<Troop> {
    s[crate::model::sq_idx(p)].troop
}

} // verus!
