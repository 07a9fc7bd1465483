use chess::Board;
use chess::BoardState;
use chess::Color;
use chess::Error;
use chess::File;
use chess::MoveError;
use chess::Piece;
use chess::Position;
use chess::Rank;
use chess::SquareOccupied;
use chess::Troop;

#[test]
fn empty_starting_square_is_reported() {
    let mut board = Board::default();
    assert_eq!(
        board.move_troop(
            Position { file: File::A, rank: Rank::Three },
            Position { file: File::A, rank: Rank::Four }
        ),
        Err(Error::Move(MoveError::EmptyStartingSquare))
    );
}

#[test]
fn moving_out_of_turn_is_reported() {
    let mut board = Board::default();
    assert_eq!(
        board.move_troop(
            Position { file: File::A, rank: Rank::Seven },
            Position { file: File::A, rank: Rank::Six }
        ),
        Err(Error::Move(MoveError::NotYourTurn))
    );
}

#[test]
fn nobody_moves_after_checkmate() {
    let mut board = Board::default();
    board.set_state(BoardState::Checkmate(Color::Black));
    assert_eq!(
        board.move_troop(
            Position { file: File::A, rank: Rank::Two },
            Position { file: File::A, rank: Rank::Three }
        ),
        Err(Error::Move(MoveError::NotYourTurn))
    );
    assert!(!BoardState::Stalemate.can_move(Color::White));
    assert!(!BoardState::Draw.can_move(Color::Black));
    assert!(!BoardState::Checkmate(Color::White).can_move(Color::White));
    assert!(BoardState::Check(Color::White).can_move(Color::White));
    assert!(!BoardState::Check(Color::White).can_move(Color::Black));
    assert!(BoardState::ToMove(Color::Black).can_move(Color::Black));
}

#[test]
fn capturing_own_piece_is_friendly_fire() {
    let mut board = Board::default();
    assert_eq!(
        board.move_troop(
            Position { file: File::A, rank: Rank::One },
            Position { file: File::A, rank: Rank::Two }
        ),
        Err(Error::Move(MoveError::FriendlyFire))
    );
}

#[test]
fn moving_onto_the_starting_square_is_friendly_fire() {
    let mut board = Board::default();
    assert_eq!(
        board.move_troop(
            Position { file: File::A, rank: Rank::Two },
            Position { file: File::A, rank: Rank::Two }
        ),
        Err(Error::Move(MoveError::FriendlyFire))
    );
}

#[test]
fn rank_try_from_accepts_one_through_eight() {
    assert_eq!(Rank::try_from(1), Ok(Rank::One));
    assert_eq!(Rank::try_from(4), Ok(Rank::Four));
    assert_eq!(Rank::try_from(8), Ok(Rank::Eight));
    assert_eq!(Rank::try_from(0), Err(Error::RankParse));
    assert_eq!(Rank::try_from(9), Err(Error::RankParse));
}

#[test]
fn file_try_from_accepts_one_through_eight() {
    assert_eq!(File::try_from(1), Ok(File::A));
    assert_eq!(File::try_from(5), Ok(File::E));
    assert_eq!(File::try_from(8), Ok(File::H));
    assert_eq!(File::try_from(0), Err(Error::FileParse));
    assert_eq!(File::try_from(42), Err(Error::FileParse));
}

#[test]
fn files_and_ranks_are_ordered() {
    assert!(File::A < File::B);
    assert!(File::G < File::H);
    assert!(Rank::One < Rank::Two);
    assert!(Rank::Seven < Rank::Eight);
}

#[test]
fn place_troop_refuses_an_occupied_square() {
    let mut board = Board::default();
    let result = board.place_troop(Troop {
        piece: Piece::Queen,
        color: Color::Black,
        position: Position { file: File::A, rank: Rank::One },
    });
    assert_eq!(result, Err(SquareOccupied));
}

#[test]
fn remove_troop_returns_the_occupant() {
    let mut board = Board::default();
    let position = Position { file: File::B, rank: Rank::One };
    let removed = board.remove_troop(position);
    assert_eq!(
        removed,
        Some(Troop { piece: Piece::Knight, color: Color::White, position })
    );
    assert_eq!(board.remove_troop(position), None);
    assert!(board.get_square(&position).troop.is_none());
}

#[test]
fn replace_troop_swaps_the_occupant() {
    let mut board = Board::default();
    let position = Position { file: File::C, rank: Rank::One };
    let queen = Troop { piece: Piece::Queen, color: Color::White, position };
    let replaced = board.replace_troop(position, queen);
    assert_eq!(
        replaced,
        Some(Troop { piece: Piece::Bishop, color: Color::White, position })
    );
    assert_eq!(board.get_square(&position).troop, Some(queen));
}

#[test]
fn reset_restores_the_starting_position() {
    let mut board = Board::default();
    board
        .move_troop(
            Position { file: File::D, rank: Rank::Two },
            Position { file: File::D, rank: Rank::Four },
        )
        .unwrap();
    board.reset();
    assert_eq!(board, Board::default());
}

#[test]
fn get_mut_square_writes_through() {
    let mut board = Board::default();
    let position = Position { file: File::H, rank: Rank::Two };
    let square = board.get_mut_square(&position);
    square.troop = None;
    assert!(board.get_square(&position).troop.is_none());
}
