//! Engine-wide laws, proved once and for all.
//!
//! The rejection and preservation laws (a failed move leaves the board
//! unchanged; a successful move preserves the board invariant) are stated
//! directly in `Board::move_troop`'s contract.  This module proves the two
//! laws that relate several calls or several boards: strict turn alternation
//! across consecutive successful moves, and the rank-mirror symmetry of the
//! legal-destination relation.

use vstd::prelude::*;

use crate::engine::move_error;
use crate::engine::move_ok;
use crate::engine::next_state;
use crate::engine::to_play;
use crate::geometry::hostile;
use crate::geometry::occ;
use crate::geometry::path_clear;
use crate::geometry::reach;
use crate::geometry::seg_between;
use crate::geometry::sq_troop;
use crate::model::file_ord;
use crate::model::lemma_pos_at_inverse;
use crate::model::lemma_wf_update;
use crate::model::on_board;
use crate::model::other;
use crate::model::pos_at;
use crate::model::rank_of_ord;
use crate::model::sq_idx;
use crate::model::rank_ord;
use crate::model::Board;
use crate::model::Color;
use crate::model::Position;
use crate::model::Square;
use crate::model::Troop;

verus! {

/// The position on the same file, with the rank reflected (rank 1 swaps
/// with 8, 2 with 7, and so on).
pub open spec fn mirror_pos(p: Position) -> Position {
    Position { file: p.file, rank: rank_of_ord(7 - rank_ord(p.rank)) }
}

/// The troop of the opposing color standing at the rank-mirrored position.
pub open spec fn mirror_troop(t: Troop) -> Troop {
    Troop { piece: t.piece, color: other(t.color), position: mirror_pos(t.position) }
}

/// Rank-mirrors a square's occupant, if any.
pub open spec fn mirror_occupant(o: Option<Troop>) -> Option<Troop> {
    match o {
        Some(t) => Some(mirror_troop(t)),
        None => None,
    }
}

/// Whether board `s2` is the rank-mirror of board `s1`: each square of `s2`
/// holds the color-flipped occupant of the reflected square of `s1`.
pub open spec fn mirrored(s1: Seq<Square>, s2: Seq<Square>) -> bool {
    forall|p: Position| mirror_occupant(#[trigger] sq_troop(s1, p)) == sq_troop(s2, mirror_pos(p))
}

/// Board invariant preservation: a successful move takes a well-formed
/// board to a well-formed board — every coordinate still maps to exactly
/// one square, and every occupant's stored position still equals the
/// coordinate of the square holding it.  Applied move after move, this
/// keeps the invariant across any sequence of successful moves.
pub proof fn lemma_move_preserves_invariant(
    pre: Board,
    from: Position,
    to: Position,
    post: Board,
)
    requires
        pre.wf(),
        move_ok(pre, from, to, post),
    ensures
        post.wf(),
{
    let mover = pre.troop_at(from)->0;
    let moved = Troop { piece: mover.piece, color: mover.color, position: to };
    let mid = pre.squares@.update(sq_idx(to), Square { position: to, troop: Some(moved) });
    lemma_wf_update(pre.squares@, mid, to, Square { position: to, troop: Some(moved) });
    lemma_wf_update(mid, post.squares@, from, Square { position: from, troop: None });
}

/// Turn alternation: across two consecutive successful moves the mover's
/// color strictly alternates.  The movers are the troops the two calls
/// found on their starting squares.
pub proof fn lemma_turn_alternation(
    b0: Board,
    from1: Position,
    to1: Position,
    b1: Board,
    from2: Position,
    to2: Position,
    b2: Board,
)
    requires
        move_ok(b0, from1, to1, b1),
        move_ok(b1, from2, to2, b2),
    ensures
        b0.troop_at(from1) matches Some(m1) && b1.troop_at(from2) matches Some(m2) && m2.color
            == other(m1.color),
{
    let m1 = b0.troop_at(from1)->0;
    let m2 = b1.troop_at(from2)->0;
    assert(b1.state == next_state(b1.squares@, m1.color));
    assert(to_play(b1.state) == Some(other(m1.color)));
    assert(move_error(b1, from2, to2) is None);
    assert(to_play(b1.state) == Some(m2.color));
}

/// Occupancy mirrors pointwise: a square is occupied, or holds an enemy of
/// `c`, exactly when its reflection is occupied, or holds an enemy of the
/// opposing color.
proof fn lemma_mirror_occ(s1: Seq<Square>, s2: Seq<Square>, f: int, r: int)
    requires
        mirrored(s1, s2),
        on_board(f, r),
    ensures
        occ(s1, f, r) == occ(s2, f, 7 - r),
        forall|c: Color| hostile(s1, c, f, r) == hostile(s2, other(c), f, 7 - r),
{
    lemma_pos_at_inverse(f, r);
    lemma_pos_at_inverse(f, 7 - r);
    assert(mirror_occupant(sq_troop(s1, pos_at(f, r))) == sq_troop(s2, mirror_pos(pos_at(f, r))));
    assert(mirror_pos(pos_at(f, r)) == pos_at(f, 7 - r));
    assert forall|c: Color| hostile(s1, c, f, r) == hostile(s2, other(c), f, 7 - r) by {
        match sq_troop(s1, pos_at(f, r)) {
            Some(t) => {
                assert(sq_troop(s2, pos_at(f, 7 - r)) == Some(mirror_troop(t)));
            },
            None => {},
        }
    }
}

/// Mirror symmetry of the legal-destination relation: a troop reaches a
/// destination on one board exactly when the color-flipped troop at the
/// rank-mirrored position reaches the mirrored destination on the mirrored
/// board.  In particular, a White piece's destinations against some
/// occupancy are the mirror image of the equivalent Black piece's
/// destinations against the mirrored occupancy.
#[verifier::rlimit(100)]
pub proof fn lemma_mirror_reach(s1: Seq<Square>, s2: Seq<Square>, t: Troop, to: Position)
    requires
        mirrored(s1, s2),
    ensures
        reach(s1, t, to) == reach(s2, mirror_troop(t), mirror_pos(to)),
{
    let c = t.color;
    let f0 = file_ord(t.position.file);
    let r0 = rank_ord(t.position.rank);
    let f1 = file_ord(to.file);
    let r1 = rank_ord(to.rank);
    assert(0 <= f0 < 8 && 0 <= r0 < 8 && 0 <= f1 < 8 && 0 <= r1 < 8);
    lemma_pos_at_inverse(f0, 7 - r0);
    lemma_pos_at_inverse(f1, 7 - r1);
    assert(file_ord(mirror_pos(t.position).file) == f0);
    assert(rank_ord(mirror_pos(t.position).rank) == 7 - r0);
    assert(file_ord(mirror_pos(to).file) == f1);
    assert(rank_ord(mirror_pos(to).rank) == 7 - r1);
    assert forall|f: int, r: int| on_board(f, r) implies #[trigger] occ(s1, f, r) == occ(
        s2,
        f,
        7 - r,
    ) by {
        lemma_mirror_occ(s1, s2, f, r);
    }
    assert forall|f: int, r: int, cc: Color|
        on_board(f, r) implies #[trigger] hostile(s1, cc, f, r) == hostile(
        s2,
        other(cc),
        f,
        7 - r,
    ) by {
        lemma_mirror_occ(s1, s2, f, r);
    }
    if path_clear(s1, f0, r0, f1, r1) {
        assert forall|f: int, r: int|
            seg_between(f0, 7 - r0, f1, 7 - r1, f, r) implies !occ(s2, f, r) by {
            assert(seg_between(f0, r0, f1, r1, f, 7 - r));
            assert(!occ(s1, f, 7 - r));
            assert(occ(s1, f, 7 - r) == occ(s2, f, r));
        }
        assert(path_clear(s2, f0, 7 - r0, f1, 7 - r1));
    }
    if path_clear(s2, f0, 7 - r0, f1, 7 - r1) {
        assert forall|f: int, r: int| seg_between(f0, r0, f1, r1, f, r) implies !occ(s1, f, r) by {
            assert(seg_between(f0, 7 - r0, f1, 7 - r1, f, 7 - r));
            assert(!occ(s2, f, 7 - r));
            assert(occ(s1, f, r) == occ(s2, f, 7 - r));
        }
        assert(path_clear(s1, f0, r0, f1, r1));
    }
    assert(reach(s1, t, to) == reach(s2, mirror_troop(t), mirror_pos(to)));
}

} // verus!
