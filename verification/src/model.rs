//! The board data model: coordinates, pieces, squares, the board itself and
//! its well-formedness invariant.
//!
//! Coordinates are modelled by two ordered eight-value enumerations, `File`
//! (columns A-H) and `Rank` (rows 1-8).  A `Position` pairs one of each, so a
//! `Position` value is always on the board.  The board owns one `Square` per
//! coordinate pair, stored file-major in a vector of 64 squares.

use vstd::prelude::*;

verus! {

/// One of the two sides.
#[derive(Clone, Copy, Debug, PartialEq, Eq, Hash, Structural)]
pub enum Color {
    Black,
    White,
}

/// The kind of a piece.  Pieces carry no per-instance state beyond identity.
#[derive(Clone, Copy, Debug, PartialEq, Eq, Hash, Structural)]
pub enum Piece {
    Pawn,
    Knight,
    Bishop,
    Rook,
    Queen,
    King,
}

/// A row of the board, ordered One < Two < ... < Eight.
#[derive(Clone, Copy, Debug, PartialEq, Eq, Hash, Ord, Structural)]
pub enum Rank {
    One,
    Two,
    Three,
    Four,
    Five,
    Six,
    Seven,
    Eight,
}

/// A column of the board, ordered A < B < ... < H.
#[derive(Clone, Copy, Debug, PartialEq, Eq, Hash, Ord, Structural)]
pub enum File {
    A,
    B,
    C,
    D,
    E,
    F,
    G,
    H,
}

/// A board coordinate; uniquely identifies one square.
#[derive(Clone, Copy, Debug, PartialEq, Eq, Structural)]
pub struct Position {
    pub file: File,
    pub rank: Rank,
}

/// A piece instance: its kind, its side, and the coordinate of the square
/// currently holding it.  The stored `position` always equals that square's
/// coordinate; the move pipeline re-establishes this on every move.
#[derive(Clone, Copy, Debug, PartialEq, Eq)]
pub struct Troop {
    pub piece: Piece,
    pub color: Color,
    pub position: Position,
}

/// One square of the board: its own coordinate and its occupant, if any.
#[derive(Clone, Copy, Debug, PartialEq, Eq)]
pub struct Square {
    pub troop: Option<Troop>,
    pub position: Position,
}

/// The coarse game state.  Only `ToMove(c)` and `Check(c)` permit a move, and
/// only by `c`; the remaining states permit no one.
#[derive(Clone, Copy, Debug, PartialEq, Eq, Structural)]
pub enum BoardState {
    ToMove(Color),
    Check(Color),
    Checkmate(Color),
    Stalemate,
    Draw,
}

/// Why a proposed move was rejected.
///
/// The pipeline reports most geometry failures with the generic `Other` kind.
/// Bishop moves are the one place where the richer kinds survive: a
/// destination off the bishop's diagonals is `InvalidPath` with a fixed
/// message, and a diagonal destination whose path is obstructed is
/// `PathIsBlocked`.  `NoMotion` is part of the public taxonomy but the
/// pipeline never produces it: a move onto the starting square is caught
/// earlier, as `FriendlyFire` (the mover occupies its own destination).
#[derive(Debug, PartialEq, Eq)]
pub enum MoveError {
    EmptyStartingSquare,
    NotYourTurn,
    FriendlyFire,
    Other,
    NoMotion,
    PathIsBlocked,
    InvalidPath(&'static str),
}

/// Any failure the engine can report: a coordinate outside 1..8, or a
/// rejected move.
#[derive(Debug, PartialEq, Eq)]
pub enum Error {
    RankParse,
    FileParse,
    Move(MoveError),
}

/// Returned by `Board::place_troop` when the target square is occupied.
#[derive(Debug, PartialEq, Eq)]
pub struct SquareOccupied;

/// The board: one square per coordinate pair, stored file-major
/// (`squares[file * 8 + rank]`, both zero-based), and the game state.
#[derive(Clone, Debug, PartialEq)]
pub struct Board {
    pub squares: Vec<Square>,
    pub state: BoardState,
}

/// Zero-based ordinal of a file: A is 0, H is 7.
pub open spec fn file_ord(f: File) -> int {
    match f {
        File::A => 0,
        File::B => 1,
        File::C => 2,
        File::D => 3,
        File::E => 4,
        File::F => 5,
        File::G => 6,
        File::H => 7,
    }
}

/// Zero-based ordinal of a rank: One is 0, Eight is 7.
pub open spec fn rank_ord(r: Rank) -> int {
    match r {
        Rank::One => 0,
        Rank::Two => 1,
        Rank::Three => 2,
        Rank::Four => 3,
        Rank::Five => 4,
        Rank::Six => 5,
        Rank::Seven => 6,
        Rank::Eight => 7,
    }
}

/// The file with the given zero-based ordinal (clamped to H above 7).
pub open spec fn file_of_ord(f: int) -> File {
    if f == 0 {
        File::A
    } else if f == 1 {
        File::B
    } else if f == 2 {
        File::C
    } else if f == 3 {
        File::D
    } else if f == 4 {
        File::E
    } else if f == 5 {
        File::F
    } else if f == 6 {
        File::G
    } else {
        File::H
    }
}

/// The rank with the given zero-based ordinal (clamped to Eight above 7).
pub open spec fn rank_of_ord(r: int) -> Rank {
    if r == 0 {
        Rank::One
    } else if r == 1 {
        Rank::Two
    } else if r == 2 {
        Rank::Three
    } else if r == 3 {
        Rank::Four
    } else if r == 4 {
        Rank::Five
    } else if r == 5 {
        Rank::Six
    } else if r == 6 {
        Rank::Seven
    } else {
        Rank::Eight
    }
}

/// The position with the given zero-based ordinals.
pub open spec fn pos_at(f: int, r: int) -> Position {
    Position { file: file_of_ord(f), rank: rank_of_ord(r) }
}

/// Index of a position's square in the board's file-major square vector.
pub open spec fn sq_idx(p: Position) -> int {
    file_ord(p.file) * 8 + rank_ord(p.rank)
}

/// Whether a zero-based coordinate pair lies on the board.
pub open spec fn on_board(f: int, r: int) -> bool {
    0 <= f < 8 && 0 <= r < 8
}

pub proof fn lemma_sq_idx_bounds(p: Position)
    ensures
        0 <= sq_idx(p) < 64,
        pos_at(sq_idx(p) / 8, sq_idx(p) % 8) == p,
{
}

pub proof fn lemma_pos_at_inverse(f: int, r: int)
    requires
        on_board(f, r),
    ensures
        sq_idx(pos_at(f, r)) == f * 8 + r,
        file_ord(pos_at(f, r).file) == f,
        rank_ord(pos_at(f, r).rank) == r,
{
}

/// Replacing one square with a square that carries the same coordinate (and
/// a consistently positioned occupant, if any) preserves well-formedness.
pub proof fn lemma_wf_update(s1: Seq<Square>, s2: Seq<Square>, p: Position, sq: Square)
    requires
        squares_wf(s1),
        s2 == s1.update(sq_idx(p), sq),
        sq.position == p,
        sq.troop matches Some(t) ==> t.position == p,
    ensures
        squares_wf(s2),
{
    lemma_sq_idx_bounds(p);
    assert forall|i: int| 0 <= i < 64 implies (#[trigger] s2[i]).position == pos_at(
        i / 8,
        i % 8,
    ) by {
        if i != sq_idx(p) {
            assert(s2[i] == s1[i]);
        }
    }
    assert forall|i: int|
        0 <= i < 64 implies ((#[trigger] s2[i]).troop matches Some(t) ==> t.position
        == s2[i].position) by {
        if i != sq_idx(p) {
            assert(s2[i] == s1[i]);
        }
    }
}

impl Rank {
    /// Converts a one-based row number (1..8) to a rank.
    pub fn try_from(value: u8) -> (result: Result<Rank, Error>)
        ensures
            match result {
                Ok(rank) => 1 <= value <= 8 && rank_ord(rank) == value - 1,
                Err(e) => (value == 0 || value > 8) && e == Error::RankParse,
            },
    {
        match value {
            1u8 => Ok(Rank::One),
            2u8 => Ok(Rank::Two),
            3u8 => Ok(Rank::Three),
            4u8 => Ok(Rank::Four),
            5u8 => Ok(Rank::Five),
            6u8 => Ok(Rank::Six),
            7u8 => Ok(Rank::Seven),
            8u8 => Ok(Rank::Eight),
            _ => Err(Error::RankParse),
        }
    }

    /// Zero-based ordinal of this rank.
    pub fn index(self) -> (i: u8)
        ensures
            i as int == rank_ord(self),
            i < 8,
    {
        match self {
            Rank::One => 0,
            Rank::Two => 1,
            Rank::Three => 2,
            Rank::Four => 3,
            Rank::Five => 4,
            Rank::Six => 5,
            Rank::Seven => 6,
            Rank::Eight => 7,
        }
    }

    /// The rank with the given zero-based ordinal.
    pub fn from_index(i: u8) -> (r: Rank)
        requires
            i < 8,
        ensures
            r == rank_of_ord(i as int),
    {
        if i == 0 {
            Rank::One
        } else if i == 1 {
            Rank::Two
        } else if i == 2 {
            Rank::Three
        } else if i == 3 {
            Rank::Four
        } else if i == 4 {
            Rank::Five
        } else if i == 5 {
            Rank::Six
        } else if i == 6 {
            Rank::Seven
        } else {
            Rank::Eight
        }
    }
}

impl File {
    /// Converts a one-based column number (1..8) to a file.
    pub fn try_from(value: u8) -> (result: Result<File, Error>)
        ensures
            match result {
                Ok(file) => 1 <= value <= 8 && file_ord(file) == value - 1,
                Err(e) => (value == 0 || value > 8) && e == Error::FileParse,
            },
    {
        match value {
            1u8 => Ok(File::A),
            2u8 => Ok(File::B),
            3u8 => Ok(File::C),
            4u8 => Ok(File::D),
            5u8 => Ok(File::E),
            6u8 => Ok(File::F),
            7u8 => Ok(File::G),
            8u8 => Ok(File::H),
            _ => Err(Error::FileParse),
        }
    }

    /// Zero-based ordinal of this file.
    pub fn index(self) -> (i: u8)
        ensures
            i as int == file_ord(self),
            i < 8,
    {
        match self {
            File::A => 0,
            File::B => 1,
            File::C => 2,
            File::D => 3,
            File::E => 4,
            File::F => 5,
            File::G => 6,
            File::H => 7,
        }
    }

    /// The file with the given zero-based ordinal.
    pub fn from_index(i: u8) -> (f: File)
        requires
            i < 8,
        ensures
            f == file_of_ord(i as int),
    {
        if i == 0 {
            File::A
        } else if i == 1 {
            File::B
        } else if i == 2 {
            File::C
        } else if i == 3 {
            File::D
        } else if i == 4 {
            File::E
        } else if i == 5 {
            File::F
        } else if i == 6 {
            File::G
        } else {
            File::H
        }
    }
}


impl PartialOrd for Rank {
    /// Ranks compare by ordinal position alone.
    fn partial_cmp(&self, other: &Self) -> (r: Option<core::cmp::Ordering>) {
        let a = self.index();
        let b = other.index();
        if a < b {
            Some(core::cmp::Ordering::Less)
        } else if a == b {
            Some(core::cmp::Ordering::Equal)
        } else {
            Some(core::cmp::Ordering::Greater)
        }
    }
}

impl vstd::std_specs::cmp::PartialOrdSpecImpl for Rank {
    open spec fn obeys_partial_cmp_spec() -> bool {
        true
    }

    open spec fn partial_cmp_spec(&self, other: &Self) -> Option<core::cmp::Ordering> {
        if rank_ord(*self) < rank_ord(*other) {
            Some(core::cmp::Ordering::Less)
        } else if rank_ord(*self) == rank_ord(*other) {
            Some(core::cmp::Ordering::Equal)
        } else {
            Some(core::cmp::Ordering::Greater)
        }
    }
}

impl PartialOrd for File {
    /// Files compare by ordinal position alone.
    fn partial_cmp(&self, other: &Self) -> (r: Option<core::cmp::Ordering>) {
        let a = self.index();
        let b = other.index();
        if a < b {
            Some(core::cmp::Ordering::Less)
        } else if a == b {
            Some(core::cmp::Ordering::Equal)
        } else {
            Some(core::cmp::Ordering::Greater)
        }
    }
}

impl vstd::std_specs::cmp::PartialOrdSpecImpl for File {
    open spec fn obeys_partial_cmp_spec() -> bool {
        true
    }

    open spec fn partial_cmp_spec(&self, other: &Self) -> Option<core::cmp::Ordering> {
        if file_ord(*self) < file_ord(*other) {
            Some(core::cmp::Ordering::Less)
        } else if file_ord(*self) == file_ord(*other) {
            Some(core::cmp::Ordering::Equal)
        } else {
            Some(core::cmp::Ordering::Greater)
        }
    }
}

/// Builds the position with the given zero-based ordinals.
pub fn position_at(f: u8, r: u8) -> (p: Position)
    requires
        f < 8,
        r < 8,
    ensures
        p == pos_at(f as int, r as int),
{
    Position { file: File::from_index(f), rank: Rank::from_index(r) }
}

/// The side opposing `c`.
pub open spec fn other(c: Color) -> Color {
    match c {
        Color::White => Color::Black,
        Color::Black => Color::White,
    }
}

/// Executable counterpart of [`other`].
pub fn opposite(c: Color) -> (o: Color)
    ensures
        o == other(c),
{
    match c {
        Color::White => Color::Black,
        Color::Black => Color::White,
    }
}

/// The piece of the back row (rank 1 or 8) standing on the given file in the
/// standard starting layout.
pub open spec fn back_row_piece(f: File) -> Piece {
    match f {
        File::A => Piece::Rook,
        File::B => Piece::Knight,
        File::C => Piece::Bishop,
        File::D => Piece::Queen,
        File::E => Piece::King,
        File::F => Piece::Bishop,
        File::G => Piece::Knight,
        File::H => Piece::Rook,
    }
}

/// The occupant of position `p` in the standard starting layout: pawns on
/// ranks 2 and 7, the back rows on ranks 1 and 8, everything else empty.
pub open spec fn starting_troop(p: Position) -> Option<Troop> {
    match p.rank {
        Rank::One => Some(Troop { piece: back_row_piece(p.file), color: Color::White, position: p }),
        Rank::Two => Some(Troop { piece: Piece::Pawn, color: Color::White, position: p }),
        Rank::Seven => Some(Troop { piece: Piece::Pawn, color: Color::Black, position: p }),
        Rank::Eight => Some(
            Troop { piece: back_row_piece(p.file), color: Color::Black, position: p },
        ),
        _ => None,
    }
}

/// Executable counterpart of [`starting_troop`].
fn initial_troop_at(p: Position) -> (t: Option<Troop>)
    ensures
        t == starting_troop(p),
{
    match p.rank {
        Rank::One => Some(
            Troop { piece: back_row_piece_at(p.file), color: Color::White, position: p },
        ),
        Rank::Two => Some(Troop { piece: Piece::Pawn, color: Color::White, position: p }),
        Rank::Seven => Some(Troop { piece: Piece::Pawn, color: Color::Black, position: p }),
        Rank::Eight => Some(
            Troop { piece: back_row_piece_at(p.file), color: Color::Black, position: p },
        ),
        _ => None,
    }
}

/// Executable counterpart of [`back_row_piece`].
fn back_row_piece_at(f: File) -> (piece: Piece)
    ensures
        piece == back_row_piece(f),
{
    match f {
        File::A => Piece::Rook,
        File::B => Piece::Knight,
        File::C => Piece::Bishop,
        File::D => Piece::Queen,
        File::E => Piece::King,
        File::F => Piece::Bishop,
        File::G => Piece::Knight,
        File::H => Piece::Rook,
    }
}

/// The board's structural invariant, over its square sequence: 64 squares,
/// the square at index `file * 8 + rank` carries exactly that coordinate,
/// and every occupant's stored position equals the coordinate of the square
/// holding it.
pub open spec fn squares_wf(s: Seq<Square>) -> bool {
    &&& s.len() == 64
    &&& forall|i: int| 0 <= i < 64 ==> (#[trigger] s[i]).position == pos_at(i / 8, i % 8)
    &&& forall|i: int|
        0 <= i < 64 ==> ((#[trigger] s[i]).troop matches Some(t) ==> t.position == s[i].position)
}

impl Board {
    /// The board's structural invariant; see [`squares_wf`].
    pub open spec fn wf(self) -> bool {
        squares_wf(self.squares@)
    }

    /// The occupant of the square at position `p`.
    pub open spec fn troop_at(self, p: Position) -> Option<Troop> {
        self.squares@[sq_idx(p)].troop
    }

    /// Reads the square at a position.
    pub fn get_square(&self, position: &Position) -> (sq: &Square)
        requires
            self.wf(),
        ensures
            *sq == self.squares@[sq_idx(*position)],
            sq.position == *position,
            sq.troop == self.troop_at(*position),
    {
        proof {
            lemma_sq_idx_bounds(*position);
        }
        let i = square_index(position);
        &self.squares[i]
    }

    /// Borrows the square at a position mutably.  The caller's writes through
    /// the returned reference are reflected at exactly that index.
    pub fn get_mut_square(&mut self, position: &Position) -> (sq: &mut Square)
        requires
            old(self).wf(),
        ensures
            *sq == old(self).squares@[sq_idx(*position)],
            final(self).squares@ == old(self).squares@.update(sq_idx(*position), *final(sq)),
            final(self).state == old(self).state,
    {
        proof {
            lemma_sq_idx_bounds(*position);
        }
        let i = square_index(position);
        &mut self.squares[i]
    }
}

/// Index of a position's square in the board's square vector.
pub fn square_index(position: &Position) -> (i: usize)
    ensures
        i as int == sq_idx(*position),
        i < 64,
{
    let f = position.file.index();
    let r = position.rank.index();
    (f as usize) * 8 + (r as usize)
}

impl Default for Board {
    /// The standard starting position, White to move.
    fn default() -> (board: Board)
        ensures
            board.wf(),
            board.state == BoardState::ToMove(Color::White),
            forall|p: Position| board.troop_at(p) == starting_troop(p),
    {
        let mut squares: Vec<Square> = Vec::new();
        let mut f: u8 = 0;
        while f < 8
            invariant
                f <= 8,
                squares@.len() == f as int * 8,
                forall|i: int|
                    0 <= i < squares@.len() ==> (#[trigger] squares@[i]).position == pos_at(
                        i / 8,
                        i % 8,
                    ),
                forall|i: int|
                    0 <= i < squares@.len() ==> (#[trigger] squares@[i]).troop == starting_troop(
                        squares@[i].position,
                    ),
            decreases 8 - f,
        {
            let mut r: u8 = 0;
            while r < 8
                invariant
                    f < 8,
                    r <= 8,
                    squares@.len() == f as int * 8 + r as int,
                    forall|i: int|
                        0 <= i < squares@.len() ==> (#[trigger] squares@[i]).position == pos_at(
                            i / 8,
                            i % 8,
                        ),
                    forall|i: int|
                        0 <= i < squares@.len() ==> (#[trigger] squares@[i]).troop
                            == starting_troop(squares@[i].position),
                decreases 8 - r,
            {
                let p = position_at(f, r);
                let sq = Square { position: p, troop: initial_troop_at(p) };
                squares.push(sq);
                r = r + 1;
            }
            f = f + 1;
        }
        let board = Board { squares, state: BoardState::ToMove(Color::White) };
        proof {
            assert forall|p: Position| board.troop_at(p) == starting_troop(p) by {
                lemma_sq_idx_bounds(p);
            }
        }
        board
    }
}

} // verus!
