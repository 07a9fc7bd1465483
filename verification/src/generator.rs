//! The legal-destination generator: for a troop on a board, the executable
//! enumeration of every square the movement rules admit.
//!
//! `Board::valid_moves` is proved to return a vector whose positions are
//! exactly the positions satisfying [`crate::geometry::reach`].  Sliding
//! pieces are produced by a single ray walker used for all eight directions;
//! knights and kings probe their fixed offsets; pawns are handled directly.

use vstd::prelude::*;

use crate::geometry::bishop_rule;
use crate::geometry::free_or_hostile;
use crate::geometry::hostile;
use crate::geometry::occ;
use crate::geometry::rook_rule;
use crate::geometry::king_rule;
use crate::geometry::knight_rule;
use crate::geometry::pawn_rule;
use crate::geometry::reach;
use crate::model::Piece;
use crate::model::Troop;
use crate::geometry::seg_between;
use crate::model::file_ord;
use crate::model::lemma_pos_at_inverse;
use crate::model::lemma_sq_idx_bounds;
use crate::model::on_board;
use crate::model::pos_at;
use crate::model::position_at;
use crate::model::rank_ord;
use crate::model::sq_idx;
use crate::model::square_index;
use crate::model::Board;
use crate::model::Color;
use crate::model::Position;
use crate::model::Square;

verus! {

/// Whether some square of `res` carries position `p`.
pub open spec fn pos_in(res: Seq<Square>, p: Position) -> bool {
    exists|i: int| 0 <= i < res.len() && res[i].position == p
}

/// Whether every element of `res` is the board square standing at its own
/// position in `s`.
pub open spec fn own_squares(res: Seq<Square>, s: Seq<Square>) -> bool {
    forall|i: int| 0 <= i < res.len() ==> res[i] == s[sq_idx((#[trigger] res[i]).position)]
}

/// The coordinate reached from `x0` after `k` steps of unit direction `d`
/// (one of -1, 0, 1).
pub open spec fn stepped(x0: int, d: int, k: int) -> int {
    if d == 1 {
        x0 + k
    } else if d == -1 {
        x0 - k
    } else {
        x0
    }
}

/// Whether `p` is the `k`-th square of the ray from `(f0, r0)` in direction
/// `(df, dr)`, every earlier ray square is empty, and `p` is empty or a
/// capture for color `c`.
pub open spec fn ray_hit_at(
    s: Seq<Square>,
    c: Color,
    f0: int,
    r0: int,
    df: int,
    dr: int,
    k: int,
    p: Position,
) -> bool {
    &&& 1 <= k
    &&& file_ord(p.file) == stepped(f0, df, k)
    &&& rank_ord(p.rank) == stepped(r0, dr, k)
    &&& forall|j: int| 1 <= j < k ==> !occ(s, stepped(f0, df, j), stepped(r0, dr, j))
    &&& free_or_hostile(s, c, stepped(f0, df, k), stepped(r0, dr, k))
}

/// Whether the ray from `(f0, r0)` in direction `(df, dr)` reaches `p`.
pub open spec fn ray_hits(
    s: Seq<Square>,
    c: Color,
    f0: int,
    r0: int,
    df: int,
    dr: int,
    p: Position,
) -> bool {
    exists|k: int| ray_hit_at(s, c, f0, r0, df, dr, k, p)
}

/// After pushing the board square `sq` onto `mb`, the carried positions are
/// those of `mb` plus `sq`'s own, and every element still comes from `s`.
proof fn lemma_push_positions(mb: Seq<Square>, ma: Seq<Square>, s: Seq<Square>, sq: Square)
    requires
        ma == mb.push(sq),
        own_squares(mb, s),
        sq == s[sq_idx(sq.position)],
    ensures
        own_squares(ma, s),
        forall|p: Position| pos_in(ma, p) <==> pos_in(mb, p) || sq.position == p,
{
    assert forall|p: Position| pos_in(ma, p) <==> pos_in(mb, p) || sq.position == p by {
        if pos_in(ma, p) {
            let i = choose|i: int| 0 <= i < ma.len() && ma[i].position == p;
            if i < mb.len() {
                assert(mb[i].position == p);
            } else {
                assert(ma[i] == sq);
            }
        }
        if pos_in(mb, p) {
            let i = choose|i: int| 0 <= i < mb.len() && mb[i].position == p;
            assert(ma[i].position == p);
        }
        if sq.position == p {
            assert(ma[mb.len() as int].position == p);
        }
    }
    assert forall|i: int| 0 <= i < ma.len() implies ma[i] == s[sq_idx((ma[i]).position)] by {
        if i < mb.len() {
            assert(ma[i] == mb[i]);
        } else {
            assert(ma[i] == sq);
        }
    }
}

/// After appending `rv` onto `mb`, the carried positions are the union of
/// the two, and every element still comes from `s`.
proof fn lemma_append_positions(mb: Seq<Square>, ma: Seq<Square>, rv: Seq<Square>, s: Seq<Square>)
    requires
        ma == mb + rv,
        own_squares(mb, s),
        own_squares(rv, s),
    ensures
        own_squares(ma, s),
        forall|p: Position| pos_in(ma, p) <==> pos_in(mb, p) || pos_in(rv, p),
{
    assert forall|p: Position| pos_in(ma, p) <==> pos_in(mb, p) || pos_in(rv, p) by {
        if pos_in(ma, p) {
            let i = choose|i: int| 0 <= i < ma.len() && ma[i].position == p;
            if i < mb.len() {
                assert(mb[i].position == p);
            } else {
                assert(rv[i - mb.len()].position == p);
            }
        }
        if pos_in(mb, p) {
            let i = choose|i: int| 0 <= i < mb.len() && mb[i].position == p;
            assert(ma[i].position == p);
        }
        if pos_in(rv, p) {
            let i = choose|i: int| 0 <= i < rv.len() && rv[i].position == p;
            assert(ma[mb.len() + i].position == p);
        }
    }
    assert forall|i: int| 0 <= i < ma.len() implies ma[i] == s[sq_idx((ma[i]).position)] by {
        if i < mb.len() {
            assert(ma[i] == mb[i]);
        } else {
            assert(ma[i] == rv[i - mb.len()]);
        }
    }
}

impl Board {
    /// Appends the square at offset target `(f, r)` if it is on the board and
    /// empty or hostile; used for the fixed knight and king offsets.
    fn probe_step(&self, moves: &mut Vec<Square>, color: Color, f: i16, r: i16)
        requires
            self.wf(),
            own_squares(old(moves)@, self.squares@),
            -8 <= f <= 15,
            -8 <= r <= 15,
        ensures
            own_squares(final(moves)@, self.squares@),
            forall|p: Position|
                pos_in(final(moves)@, p) <==> pos_in(old(moves)@, p) || (on_board(
                    f as int,
                    r as int,
                ) && free_or_hostile(self.squares@, color, f as int, r as int) && file_ord(p.file)
                    == f as int && rank_ord(p.rank) == r as int),
    {
        let ghost m0 = moves@;
        if 0 <= f && f < 8 && 0 <= r && r < 8 {
            let p = position_at(f as u8, r as u8);
            proof {
                lemma_sq_idx_bounds(p);
                lemma_pos_at_inverse(f as int, r as int);
            }
            let i = square_index(&p);
            let sq = self.squares[i];
            proof {
                assert(i as int == f as int * 8 + r as int);
                assert(self.squares@[f as int * 8 + r as int] == sq);
                assert(sq.position == p);
            }
            let push_it = match sq.troop {
                Some(t) => t.color != color,
                None => true,
            };
            if push_it {
                moves.push(sq);
                proof {
                    lemma_push_positions(m0, moves@, self.squares@, sq);
                    assert forall|q: Position|
                        pos_in(moves@, q) <==> pos_in(m0, q) || (on_board(f as int, r as int)
                            && free_or_hostile(self.squares@, color, f as int, r as int)
                            && file_ord(q.file) == f as int && rank_ord(q.rank) == r as int) by {
                        if file_ord(q.file) == f as int && rank_ord(q.rank) == r as int {
                            assert(q == pos_at(f as int, r as int));
                        }
                        if pos_in(moves@, q) && !pos_in(m0, q) {
                            assert(q == sq.position);
                        }
                    }
                }
            } else {
                assert(!free_or_hostile(self.squares@, color, f as int, r as int));
            }
        }
    }

    /// Walks one ray from `(f0, r0)` in unit direction `(df, dr)`, appending
    /// every empty square passed and, if the ray ends on a hostile occupant,
    /// that occupant's square.
    #[verifier::rlimit(100)]
    fn scan_ray(&self, moves: &mut Vec<Square>, color: Color, f0: u8, r0: u8, df: i16, dr: i16)
        requires
            self.wf(),
            own_squares(old(moves)@, self.squares@),
            f0 < 8,
            r0 < 8,
            -1 <= df <= 1,
            -1 <= dr <= 1,
            !(df == 0 && dr == 0),
        ensures
            own_squares(final(moves)@, self.squares@),
            forall|p: Position|
                pos_in(final(moves)@, p) <==> pos_in(old(moves)@, p) || ray_hits(
                    self.squares@,
                    color,
                    f0 as int,
                    r0 as int,
                    df as int,
                    dr as int,
                    p,
                ),
    {
        let ghost s = self.squares@;
        let ghost m0 = moves@;
        let ghost fi = f0 as int;
        let ghost ri = r0 as int;
        let ghost dfi = df as int;
        let ghost dri = dr as int;
        let mut ray: Vec<Square> = Vec::new();
        let mut k: u16 = 1;
        let mut cf: i16 = f0 as i16 + df;
        let mut cr: i16 = r0 as i16 + dr;
        let mut blocked: bool = false;
        while !blocked && 0 <= cf && cf < 8 && 0 <= cr && cr < 8
            invariant
                self.wf(),
                s == self.squares@,
                own_squares(ray@, s),
                f0 < 8,
                r0 < 8,
                -1 <= df <= 1,
                -1 <= dr <= 1,
                !(df == 0 && dr == 0),
                fi == f0 as int && ri == r0 as int && dfi == df as int && dri == dr as int,
                1 <= k <= 9,
                cf as int == stepped(fi, dfi, k as int),
                cr as int == stepped(ri, dri, k as int),
                !blocked ==> forall|j: int|
                    1 <= j < k as int ==> !occ(s, stepped(fi, dfi, j), stepped(ri, dri, j)),
                !blocked ==> forall|p: Position|
                    pos_in(ray@, p) <==> exists|k2: int|
                        1 <= k2 < k as int && ray_hit_at(s, color, fi, ri, dfi, dri, k2, p),
                blocked ==> forall|p: Position|
                    pos_in(ray@, p) <==> ray_hits(s, color, fi, ri, dfi, dri, p),
            decreases 10 - k as int,
        {
            let ghost ki = k as int;
            let ghost rb = ray@;
            let p = position_at(cf as u8, cr as u8);
            proof {
                lemma_sq_idx_bounds(p);
                lemma_pos_at_inverse(cf as int, cr as int);
            }
            let i = square_index(&p);
            let sq = self.squares[i];
            proof {
                assert(i as int == cf as int * 8 + cr as int);
                assert(s[cf as int * 8 + cr as int] == sq);
                assert(sq.position == p);
            }
            match sq.troop {
                None => {
                    ray.push(sq);
                    proof {
                        lemma_push_positions(rb, ray@, s, sq);
                        assert(ray_hit_at(s, color, fi, ri, dfi, dri, ki, p));
                        assert forall|q: Position|
                            pos_in(ray@, q) <==> exists|k2: int|
                                1 <= k2 < ki + 1 && ray_hit_at(
                                    s,
                                    color,
                                    fi,
                                    ri,
                                    dfi,
                                    dri,
                                    k2,
                                    q,
                                ) by {
                            if pos_in(ray@, q) {
                                if q == p {
                                    assert(1 <= ki < ki + 1 && ray_hit_at(
                                        s,
                                        color,
                                        fi,
                                        ri,
                                        dfi,
                                        dri,
                                        ki,
                                        q,
                                    ));
                                } else {
                                    assert(pos_in(rb, q));
                                    let k2 = choose|k2: int|
                                        1 <= k2 < ki && ray_hit_at(
                                            s,
                                            color,
                                            fi,
                                            ri,
                                            dfi,
                                            dri,
                                            k2,
                                            q,
                                        );
                                    assert(1 <= k2 < ki + 1 && ray_hit_at(
                                        s,
                                        color,
                                        fi,
                                        ri,
                                        dfi,
                                        dri,
                                        k2,
                                        q,
                                    ));
                                }
                            }
                            if exists|k2: int|
                                1 <= k2 < ki + 1 && ray_hit_at(s, color, fi, ri, dfi, dri, k2, q) {
                                let k2 = choose|k2: int|
                                    1 <= k2 < ki + 1 && ray_hit_at(
                                        s,
                                        color,
                                        fi,
                                        ri,
                                        dfi,
                                        dri,
                                        k2,
                                        q,
                                    );
                                if k2 == ki {
                                    assert(q == pos_at(cf as int, cr as int));
                                    assert(sq.position == q);
                                    assert(pos_in(ray@, q));
                                } else {
                                    assert(1 <= k2 < ki && ray_hit_at(
                                        s,
                                        color,
                                        fi,
                                        ri,
                                        dfi,
                                        dri,
                                        k2,
                                        q,
                                    ));
                                    assert(pos_in(rb, q));
                                }
                            }
                        }
                    }
                },
                Some(t) => {
                    let hit = t.color != color;
                    if hit {
                        ray.push(sq);
                        proof {
                            lemma_push_positions(rb, ray@, s, sq);
                            assert(ray_hit_at(s, color, fi, ri, dfi, dri, ki, p));
                        }
                    }
                    blocked = true;
                    proof {
                        assert forall|q: Position|
                            pos_in(ray@, q) <==> ray_hits(s, color, fi, ri, dfi, dri, q) by {
                            // No hit lies beyond the blocker; a hit at the
                            // blocker happens exactly when it is hostile.
                            assert forall|k2: int|
                                ray_hit_at(s, color, fi, ri, dfi, dri, k2, q) implies k2 <= ki by {
                                if k2 > ki {
                                    assert(occ(s, stepped(fi, dfi, ki), stepped(ri, dri, ki)));
                                }
                            }
                            if ray_hits(s, color, fi, ri, dfi, dri, q) {
                                let k2 = choose|k2: int|
                                    ray_hit_at(s, color, fi, ri, dfi, dri, k2, q);
                                if k2 == ki {
                                    assert(q == pos_at(cf as int, cr as int));
                                    assert(hostile(s, color, cf as int, cr as int));
                                    assert(hit && sq.position == q);
                                    assert(pos_in(ray@, q));
                                } else {
                                    assert(1 <= k2 < ki && ray_hit_at(
                                        s,
                                        color,
                                        fi,
                                        ri,
                                        dfi,
                                        dri,
                                        k2,
                                        q,
                                    ));
                                    assert(pos_in(rb, q));
                                    if hit {
                                        assert(pos_in(ray@, q));
                                    }
                                }
                            }
                            if pos_in(ray@, q) {
                                if hit && q == p {
                                    assert(ray_hit_at(s, color, fi, ri, dfi, dri, ki, q));
                                } else {
                                    assert(pos_in(rb, q));
                                    let k2 = choose|k2: int|
                                        1 <= k2 < ki && ray_hit_at(
                                            s,
                                            color,
                                            fi,
                                            ri,
                                            dfi,
                                            dri,
                                            k2,
                                            q,
                                        );
                                    assert(ray_hit_at(s, color, fi, ri, dfi, dri, k2, q));
                                }
                            }
                        }
                    }
                },
            }
            k = k + 1;
            cf = cf + df;
            cr = cr + dr;
        }
        proof {
            if !blocked {
                // The walk ran off the board: no hit at or beyond step k.
                assert forall|p: Position|
                    pos_in(ray@, p) <==> ray_hits(s, color, fi, ri, dfi, dri, p) by {
                    assert forall|k2: int|
                        ray_hit_at(s, color, fi, ri, dfi, dri, k2, p) implies k2 < k as int by {
                        if k2 >= k as int {
                            assert(0 <= file_ord(p.file) < 8);
                            assert(0 <= rank_ord(p.rank) < 8);
                        }
                    }
                    if ray_hits(s, color, fi, ri, dfi, dri, p) {
                        let k2 = choose|k2: int| ray_hit_at(s, color, fi, ri, dfi, dri, k2, p);
                        assert(1 <= k2 < k as int && ray_hit_at(s, color, fi, ri, dfi, dri, k2, p));
                    }
                }
            }
        }
        let ghost rv = ray@;
        moves.append(&mut ray);
        proof {
            lemma_append_positions(m0, moves@, rv, s);
        }
    }
}

/// A rook destination is exactly a hit of one of the four straight rays.
pub proof fn lemma_rook_rays(s: Seq<Square>, c: Color, f0: int, r0: int, p: Position)
    requires
        on_board(f0, r0),
    ensures
        rook_rule(s, c, f0, r0, file_ord(p.file), rank_ord(p.rank)) <==> (ray_hits(
            s,
            c,
            f0,
            r0,
            0,
            1,
            p,
        ) || ray_hits(s, c, f0, r0, 0, -1, p) || ray_hits(s, c, f0, r0, 1, 0, p) || ray_hits(
            s,
            c,
            f0,
            r0,
            -1,
            0,
            p,
        )),
{
    let f1 = file_ord(p.file);
    let r1 = rank_ord(p.rank);
    assert(0 <= f1 < 8 && 0 <= r1 < 8);
    if rook_rule(s, c, f0, r0, f1, r1) {
        if f1 == f0 && r1 > r0 {
            let k = r1 - r0;
            assert forall|j: int| 1 <= j < k implies !(#[trigger] occ(
                s,
                stepped(f0, 0, j),
                stepped(r0, 1, j),
            )) by {
                assert(seg_between(f0, r0, f1, r1, f0, r0 + j));
            }
            assert(ray_hit_at(s, c, f0, r0, 0, 1, k, p));
        } else if f1 == f0 && r1 < r0 {
            let k = r0 - r1;
            assert forall|j: int| 1 <= j < k implies !(#[trigger] occ(
                s,
                stepped(f0, 0, j),
                stepped(r0, -1, j),
            )) by {
                assert(seg_between(f0, r0, f1, r1, f0, r0 - j));
            }
            assert(ray_hit_at(s, c, f0, r0, 0, -1, k, p));
        } else if r1 == r0 && f1 > f0 {
            let k = f1 - f0;
            assert forall|j: int| 1 <= j < k implies !(#[trigger] occ(
                s,
                stepped(f0, 1, j),
                stepped(r0, 0, j),
            )) by {
                assert(seg_between(f0, r0, f1, r1, f0 + j, r0));
            }
            assert(ray_hit_at(s, c, f0, r0, 1, 0, k, p));
        } else {
            let k = f0 - f1;
            assert forall|j: int| 1 <= j < k implies !(#[trigger] occ(
                s,
                stepped(f0, -1, j),
                stepped(r0, 0, j),
            )) by {
                assert(seg_between(f0, r0, f1, r1, f0 - j, r0));
            }
            assert(ray_hit_at(s, c, f0, r0, -1, 0, k, p));
        }
    }
    if ray_hits(s, c, f0, r0, 0, 1, p) {
        let k = choose|k: int| #[trigger] ray_hit_at(s, c, f0, r0, 0, 1, k, p);
        assert forall|f: int, r: int| seg_between(f0, r0, f1, r1, f, r) implies !occ(s, f, r) by {
            assert(!occ(s, stepped(f0, 0, r - r0), stepped(r0, 1, r - r0)));
        }
        assert(rook_rule(s, c, f0, r0, f1, r1));
    }
    if ray_hits(s, c, f0, r0, 0, -1, p) {
        let k = choose|k: int| #[trigger] ray_hit_at(s, c, f0, r0, 0, -1, k, p);
        assert forall|f: int, r: int| seg_between(f0, r0, f1, r1, f, r) implies !occ(s, f, r) by {
            assert(!occ(s, stepped(f0, 0, r0 - r), stepped(r0, -1, r0 - r)));
        }
        assert(rook_rule(s, c, f0, r0, f1, r1));
    }
    if ray_hits(s, c, f0, r0, 1, 0, p) {
        let k = choose|k: int| #[trigger] ray_hit_at(s, c, f0, r0, 1, 0, k, p);
        assert forall|f: int, r: int| seg_between(f0, r0, f1, r1, f, r) implies !occ(s, f, r) by {
            assert(!occ(s, stepped(f0, 1, f - f0), stepped(r0, 0, f - f0)));
        }
        assert(rook_rule(s, c, f0, r0, f1, r1));
    }
    if ray_hits(s, c, f0, r0, -1, 0, p) {
        let k = choose|k: int| #[trigger] ray_hit_at(s, c, f0, r0, -1, 0, k, p);
        assert forall|f: int, r: int| seg_between(f0, r0, f1, r1, f, r) implies !occ(s, f, r) by {
            assert(!occ(s, stepped(f0, -1, f0 - f), stepped(r0, 0, f0 - f)));
        }
        assert(rook_rule(s, c, f0, r0, f1, r1));
    }
}

/// A bishop destination is exactly a hit of one of the four diagonal rays.
pub proof fn lemma_bishop_rays(s: Seq<Square>, c: Color, f0: int, r0: int, p: Position)
    requires
        on_board(f0, r0),
    ensures
        bishop_rule(s, c, f0, r0, file_ord(p.file), rank_ord(p.rank)) <==> (ray_hits(
            s,
            c,
            f0,
            r0,
            1,
            1,
            p,
        ) || ray_hits(s, c, f0, r0, 1, -1, p) || ray_hits(s, c, f0, r0, -1, 1, p) || ray_hits(
            s,
            c,
            f0,
            r0,
            -1,
            -1,
            p,
        )),
{
    let f1 = file_ord(p.file);
    let r1 = rank_ord(p.rank);
    assert(0 <= f1 < 8 && 0 <= r1 < 8);
    if bishop_rule(s, c, f0, r0, f1, r1) {
        if f1 > f0 && r1 - r0 == f1 - f0 {
            let k = f1 - f0;
            assert forall|j: int| 1 <= j < k implies !(#[trigger] occ(
                s,
                stepped(f0, 1, j),
                stepped(r0, 1, j),
            )) by {
                assert(seg_between(f0, r0, f1, r1, f0 + j, r0 + j));
            }
            assert(ray_hit_at(s, c, f0, r0, 1, 1, k, p));
        } else if f1 > f0 && r1 - r0 == -(f1 - f0) {
            let k = f1 - f0;
            assert forall|j: int| 1 <= j < k implies !(#[trigger] occ(
                s,
                stepped(f0, 1, j),
                stepped(r0, -1, j),
            )) by {
                assert(seg_between(f0, r0, f1, r1, f0 + j, r0 - j));
            }
            assert(ray_hit_at(s, c, f0, r0, 1, -1, k, p));
        } else if f1 < f0 && r1 - r0 == -(f1 - f0) {
            let k = f0 - f1;
            assert forall|j: int| 1 <= j < k implies !(#[trigger] occ(
                s,
                stepped(f0, -1, j),
                stepped(r0, 1, j),
            )) by {
                assert(seg_between(f0, r0, f1, r1, f0 - j, r0 + j));
            }
            assert(ray_hit_at(s, c, f0, r0, -1, 1, k, p));
        } else {
            let k = f0 - f1;
            assert forall|j: int| 1 <= j < k implies !(#[trigger] occ(
                s,
                stepped(f0, -1, j),
                stepped(r0, -1, j),
            )) by {
                assert(seg_between(f0, r0, f1, r1, f0 - j, r0 - j));
            }
            assert(ray_hit_at(s, c, f0, r0, -1, -1, k, p));
        }
    }
    if ray_hits(s, c, f0, r0, 1, 1, p) {
        let k = choose|k: int| #[trigger] ray_hit_at(s, c, f0, r0, 1, 1, k, p);
        assert forall|f: int, r: int| seg_between(f0, r0, f1, r1, f, r) implies !occ(s, f, r) by {
            assert(!occ(s, stepped(f0, 1, f - f0), stepped(r0, 1, f - f0)));
        }
        assert(bishop_rule(s, c, f0, r0, f1, r1));
    }
    if ray_hits(s, c, f0, r0, 1, -1, p) {
        let k = choose|k: int| #[trigger] ray_hit_at(s, c, f0, r0, 1, -1, k, p);
        assert forall|f: int, r: int| seg_between(f0, r0, f1, r1, f, r) implies !occ(s, f, r) by {
            assert(!occ(s, stepped(f0, 1, f - f0), stepped(r0, -1, f - f0)));
        }
        assert(bishop_rule(s, c, f0, r0, f1, r1));
    }
    if ray_hits(s, c, f0, r0, -1, 1, p) {
        let k = choose|k: int| #[trigger] ray_hit_at(s, c, f0, r0, -1, 1, k, p);
        assert forall|f: int, r: int| seg_between(f0, r0, f1, r1, f, r) implies !occ(s, f, r) by {
            assert(!occ(s, stepped(f0, -1, f0 - f), stepped(r0, 1, f0 - f)));
        }
        assert(bishop_rule(s, c, f0, r0, f1, r1));
    }
    if ray_hits(s, c, f0, r0, -1, -1, p) {
        let k = choose|k: int| #[trigger] ray_hit_at(s, c, f0, r0, -1, -1, k, p);
        assert forall|f: int, r: int| seg_between(f0, r0, f1, r1, f, r) implies !occ(s, f, r) by {
            assert(!occ(s, stepped(f0, -1, f0 - f), stepped(r0, -1, f0 - f)));
        }
        assert(bishop_rule(s, c, f0, r0, f1, r1));
    }
}
impl Board {
    /// Appends the pawn destinations: single step, double step from the home
    /// rank, and diagonal captures.
    #[verifier::rlimit(100)]
    fn pawn_steps(&self, moves: &mut Vec<Square>, color: Color, f0: u8, r0: u8)
        requires
            self.wf(),
            own_squares(old(moves)@, self.squares@),
            f0 < 8,
            r0 < 8,
        ensures
            own_squares(final(moves)@, self.squares@),
            forall|p: Position|
                pos_in(final(moves)@, p) <==> pos_in(old(moves)@, p) || pawn_rule(
                    self.squares@,
                    color,
                    f0 as int,
                    r0 as int,
                    file_ord(p.file),
                    rank_ord(p.rank),
                ),
    {
        let ghost s = self.squares@;
        let ghost m0 = moves@;
        let ghost f0i = f0 as int;
        let ghost r0i = r0 as int;
        let white = match color {
            Color::White => true,
            Color::Black => false,
        };
        let ghost diri: int = if white {
            1
        } else {
            -1
        };
        let ghost homei: int = if white {
            1
        } else {
            6
        };
        let fr: i16 = if white {
            r0 as i16 + 1
        } else {
            r0 as i16 - 1
        };
        // One step forward, onto an empty square only.
        if 0 <= fr && fr < 8 {
            let p1 = position_at(f0, fr as u8);
            proof {
                lemma_sq_idx_bounds(p1);
                lemma_pos_at_inverse(f0i, fr as int);
            }
            let i1 = square_index(&p1);
            let sq1 = self.squares[i1];
            proof {
                assert(s[f0i * 8 + (r0i + diri)] == sq1);
                assert(sq1.position == p1);
            }
            if sq1.troop.is_none() {
                moves.push(sq1);
                proof {
                    lemma_push_positions(m0, moves@, s, sq1);
                }
            }
        }
        let ghost m1 = moves@;
        proof {
            assert forall|p: Position|
                pos_in(m1, p) <==> pos_in(m0, p) || (file_ord(p.file) == f0i && rank_ord(p.rank)
                    == r0i + diri && !occ(s, f0i, r0i + diri)) by {
                assert(0 <= file_ord(p.file) < 8 && 0 <= rank_ord(p.rank) < 8);
                if file_ord(p.file) == f0i && rank_ord(p.rank) == r0i + diri {
                    assert(p == pos_at(f0i, r0i + diri));
                }
            }
        }
        // Two steps forward from the home rank, both squares ahead empty.
        let at_home = if white {
            r0 == 1
        } else {
            r0 == 6
        };
        if at_home {
            let rm: u8 = if white {
                2
            } else {
                5
            };
            let rt: u8 = if white {
                3
            } else {
                4
            };
            let pm = position_at(f0, rm);
            let pt = position_at(f0, rt);
            proof {
                lemma_sq_idx_bounds(pm);
                lemma_sq_idx_bounds(pt);
                lemma_pos_at_inverse(f0i, rm as int);
                lemma_pos_at_inverse(f0i, rt as int);
            }
            let im = square_index(&pm);
            let it = square_index(&pt);
            let sqm = self.squares[im];
            let sqt = self.squares[it];
            proof {
                assert(s[f0i * 8 + (r0i + diri)] == sqm);
                assert(s[f0i * 8 + (r0i + 2 * diri)] == sqt);
                assert(sqt.position == pt);
            }
            if sqm.troop.is_none() && sqt.troop.is_none() {
                moves.push(sqt);
                proof {
                    lemma_push_positions(m1, moves@, s, sqt);
                }
            }
        }
        let ghost m2 = moves@;
        proof {
            assert forall|p: Position|
                pos_in(m2, p) <==> pos_in(m1, p) || (file_ord(p.file) == f0i && r0i == homei
                    && rank_ord(p.rank) == r0i + 2 * diri && !occ(s, f0i, r0i + diri) && !occ(
                    s,
                    f0i,
                    r0i + 2 * diri,
                )) by {
                if file_ord(p.file) == f0i && rank_ord(p.rank) == r0i + 2 * diri && r0i == homei {
                    assert(p == pos_at(f0i, r0i + 2 * diri));
                }
            }
        }
        // Diagonal capture towards the A file.
        if f0 > 0 && 0 <= fr && fr < 8 {
            let pd = position_at(f0 - 1, fr as u8);
            proof {
                lemma_sq_idx_bounds(pd);
                lemma_pos_at_inverse(f0i - 1, fr as int);
            }
            let id = square_index(&pd);
            let sqd = self.squares[id];
            proof {
                assert(s[(f0i - 1) * 8 + (r0i + diri)] == sqd);
                assert(sqd.position == pd);
            }
            let capture = match sqd.troop {
                Some(t) => t.color != color,
                None => false,
            };
            if capture {
                moves.push(sqd);
                proof {
                    lemma_push_positions(m2, moves@, s, sqd);
                }
            }
        }
        let ghost m3 = moves@;
        proof {
            assert forall|p: Position|
                pos_in(m3, p) <==> pos_in(m2, p) || (file_ord(p.file) == f0i - 1 && rank_ord(p.rank)
                    == r0i + diri && hostile(s, color, f0i - 1, r0i + diri)) by {
                assert(0 <= file_ord(p.file) < 8 && 0 <= rank_ord(p.rank) < 8);
                if file_ord(p.file) == f0i - 1 && rank_ord(p.rank) == r0i + diri {
                    assert(p == pos_at(f0i - 1, r0i + diri));
                }
            }
        }
        // Diagonal capture towards the H file.
        if f0 < 7 && 0 <= fr && fr < 8 {
            let pd = position_at(f0 + 1, fr as u8);
            proof {
                lemma_sq_idx_bounds(pd);
                lemma_pos_at_inverse(f0i + 1, fr as int);
            }
            let id = square_index(&pd);
            let sqd = self.squares[id];
            proof {
                assert(s[(f0i + 1) * 8 + (r0i + diri)] == sqd);
                assert(sqd.position == pd);
            }
            let capture = match sqd.troop {
                Some(t) => t.color != color,
                None => false,
            };
            if capture {
                moves.push(sqd);
                proof {
                    lemma_push_positions(m3, moves@, s, sqd);
                }
            }
        }
        proof {
            assert forall|p: Position|
                pos_in(moves@, p) <==> pos_in(m3, p) || (file_ord(p.file) == f0i + 1 && rank_ord(
                    p.rank,
                ) == r0i + diri && hostile(s, color, f0i + 1, r0i + diri)) by {
                assert(0 <= file_ord(p.file) < 8 && 0 <= rank_ord(p.rank) < 8);
                if file_ord(p.file) == f0i + 1 && rank_ord(p.rank) == r0i + diri {
                    assert(p == pos_at(f0i + 1, r0i + diri));
                }
            }
            assert forall|p: Position|
                pos_in(moves@, p) <==> pos_in(m0, p) || pawn_rule(
                    s,
                    color,
                    f0i,
                    r0i,
                    file_ord(p.file),
                    rank_ord(p.rank),
                ) by {}
        }
    }

    /// Appends the knight destinations: the eight fixed offsets, ignoring
    /// intervening occupancy.
    fn knight_steps(&self, moves: &mut Vec<Square>, color: Color, f0: u8, r0: u8)
        requires
            self.wf(),
            own_squares(old(moves)@, self.squares@),
            f0 < 8,
            r0 < 8,
        ensures
            own_squares(final(moves)@, self.squares@),
            forall|p: Position|
                pos_in(final(moves)@, p) <==> pos_in(old(moves)@, p) || knight_rule(
                    self.squares@,
                    color,
                    f0 as int,
                    r0 as int,
                    file_ord(p.file),
                    rank_ord(p.rank),
                ),
    {
        let ghost s = self.squares@;
        let ghost m0 = moves@;
        let fc = f0 as i16;
        let rc = r0 as i16;
        self.probe_step(moves, color, fc - 1, rc + 2);
        self.probe_step(moves, color, fc + 1, rc + 2);
        self.probe_step(moves, color, fc + 2, rc + 1);
        self.probe_step(moves, color, fc + 2, rc - 1);
        self.probe_step(moves, color, fc + 1, rc - 2);
        self.probe_step(moves, color, fc - 1, rc - 2);
        self.probe_step(moves, color, fc - 2, rc - 1);
        self.probe_step(moves, color, fc - 2, rc + 1);
        proof {
            assert forall|p: Position|
                pos_in(moves@, p) <==> pos_in(m0, p) || knight_rule(
                    s,
                    color,
                    f0 as int,
                    r0 as int,
                    file_ord(p.file),
                    rank_ord(p.rank),
                ) by {
                assert(0 <= file_ord(p.file) < 8 && 0 <= rank_ord(p.rank) < 8);
            }
        }
    }

    /// Appends the king destinations: the eight adjacent squares.
    fn king_steps(&self, moves: &mut Vec<Square>, color: Color, f0: u8, r0: u8)
        requires
            self.wf(),
            own_squares(old(moves)@, self.squares@),
            f0 < 8,
            r0 < 8,
        ensures
            own_squares(final(moves)@, self.squares@),
            forall|p: Position|
                pos_in(final(moves)@, p) <==> pos_in(old(moves)@, p) || king_rule(
                    self.squares@,
                    color,
                    f0 as int,
                    r0 as int,
                    file_ord(p.file),
                    rank_ord(p.rank),
                ),
    {
        let ghost s = self.squares@;
        let ghost m0 = moves@;
        let fc = f0 as i16;
        let rc = r0 as i16;
        self.probe_step(moves, color, fc - 1, rc + 1);
        self.probe_step(moves, color, fc, rc + 1);
        self.probe_step(moves, color, fc + 1, rc + 1);
        self.probe_step(moves, color, fc + 1, rc);
        self.probe_step(moves, color, fc + 1, rc - 1);
        self.probe_step(moves, color, fc, rc - 1);
        self.probe_step(moves, color, fc - 1, rc - 1);
        self.probe_step(moves, color, fc - 1, rc);
        proof {
            assert forall|p: Position|
                pos_in(moves@, p) <==> pos_in(m0, p) || king_rule(
                    s,
                    color,
                    f0 as int,
                    r0 as int,
                    file_ord(p.file),
                    rank_ord(p.rank),
                ) by {
                assert(0 <= file_ord(p.file) < 8 && 0 <= rank_ord(p.rank) < 8);
            }
        }
    }

    /// The legal-destination generator: every square the given troop may move
    /// to on this board, per the movement rules.  The troop need not stand on
    /// the board; only its kind, color and position enter the computation.
    pub fn valid_moves(&self, troop: &Troop) -> (moves: Vec<Square>)
        requires
            self.wf(),
        ensures
            own_squares(moves@, self.squares@),
            forall|p: Position| pos_in(moves@, p) <==> reach(self.squares@, *troop, p),
    {
        let ghost s = self.squares@;
        let f0 = troop.position.file.index();
        let r0 = troop.position.rank.index();
        let ghost f0i = f0 as int;
        let ghost r0i = r0 as int;
        let mut moves: Vec<Square> = Vec::new();
        match troop.piece {
            Piece::Pawn => {
                self.pawn_steps(&mut moves, troop.color, f0, r0);
            },
            Piece::Knight => {
                self.knight_steps(&mut moves, troop.color, f0, r0);
            },
            Piece::King => {
                self.king_steps(&mut moves, troop.color, f0, r0);
            },
            Piece::Rook => {
                self.scan_ray(&mut moves, troop.color, f0, r0, 0, 1);
                self.scan_ray(&mut moves, troop.color, f0, r0, 0, -1);
                self.scan_ray(&mut moves, troop.color, f0, r0, 1, 0);
                self.scan_ray(&mut moves, troop.color, f0, r0, -1, 0);
                proof {
                    assert forall|p: Position|
                        pos_in(moves@, p) <==> reach(s, *troop, p) by {
                        lemma_rook_rays(s, troop.color, f0i, r0i, p);
                    }
                }
            },
            Piece::Bishop => {
                self.scan_ray(&mut moves, troop.color, f0, r0, 1, 1);
                self.scan_ray(&mut moves, troop.color, f0, r0, 1, -1);
                self.scan_ray(&mut moves, troop.color, f0, r0, -1, 1);
                self.scan_ray(&mut moves, troop.color, f0, r0, -1, -1);
                proof {
                    assert forall|p: Position|
                        pos_in(moves@, p) <==> reach(s, *troop, p) by {
                        lemma_bishop_rays(s, troop.color, f0i, r0i, p);
                    }
                }
            },
            Piece::Queen => {
                self.scan_ray(&mut moves, troop.color, f0, r0, 0, 1);
                self.scan_ray(&mut moves, troop.color, f0, r0, 0, -1);
                self.scan_ray(&mut moves, troop.color, f0, r0, 1, 0);
                self.scan_ray(&mut moves, troop.color, f0, r0, -1, 0);
                self.scan_ray(&mut moves, troop.color, f0, r0, 1, 1);
                self.scan_ray(&mut moves, troop.color, f0, r0, 1, -1);
                self.scan_ray(&mut moves, troop.color, f0, r0, -1, 1);
                self.scan_ray(&mut moves, troop.color, f0, r0, -1, -1);
                proof {
                    assert forall|p: Position|
                        pos_in(moves@, p) <==> reach(s, *troop, p) by {
                        lemma_rook_rays(s, troop.color, f0i, r0i, p);
                        lemma_bishop_rays(s, troop.color, f0i, r0i, p);
                    }
                }
            },
        }
        moves
    }
}

} // verus!
