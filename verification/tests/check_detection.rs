use chess::Board;
use chess::BoardState;
use chess::Color;
use chess::File;
use chess::Piece;
use chess::Position;
use chess::Rank;
use chess::Troop;

#[test]
fn direct_check() {
    let mut board = Board::default();
    board.remove_troop(Position { file: File::F, rank: Rank::Two });
    board.remove_troop(Position { file: File::C, rank: Rank::Seven });
    board
        .move_troop(
            Position { file: File::E, rank: Rank::One },
            Position { file: File::F, rank: Rank::Two },
        )
        .unwrap();
    board
        .move_troop(
            Position { file: File::D, rank: Rank::Eight },
            Position { file: File::B, rank: Rank::Six },
        )
        .unwrap();

    assert_eq!(board.state, BoardState::Check(Color::White));
}

#[test]
fn indirect_check() {
    let mut board = Board::default();
    board
        .place_troop(Troop {
            color: Color::Black,
            piece: Piece::Bishop,
            position: Position { file: File::H, rank: Rank::Four },
        })
        .unwrap();
    board
        .place_troop(Troop {
            color: Color::Black,
            piece: Piece::Pawn,
            position: Position { file: File::G, rank: Rank::Three },
        })
        .unwrap();

    board
        .move_troop(
            Position { file: File::F, rank: Rank::Two },
            Position { file: File::F, rank: Rank::Four },
        )
        .unwrap();

    board
        .move_troop(
            Position { file: File::G, rank: Rank::Three },
            Position { file: File::H, rank: Rank::Two },
        )
        .unwrap();

    assert_eq!(board.state, BoardState::Check(Color::White));
}

#[test]
fn staying_in_check_is_rejected() {
    let mut board = Board::default();
    board.remove_troop(Position { file: File::F, rank: Rank::Two });
    board.remove_troop(Position { file: File::C, rank: Rank::Seven });
    board
        .move_troop(
            Position { file: File::E, rank: Rank::One },
            Position { file: File::F, rank: Rank::Two },
        )
        .unwrap();
    board
        .move_troop(
            Position { file: File::D, rank: Rank::Eight },
            Position { file: File::B, rank: Rank::Six },
        )
        .unwrap();
    assert_eq!(board.state, BoardState::Check(Color::White));
    // A move that leaves the king attacked is rejected.
    assert_eq!(
        board.move_troop(
            Position { file: File::A, rank: Rank::Two },
            Position { file: File::A, rank: Rank::Three },
        ),
        Err(chess::Error::Move(chess::MoveError::Other))
    );
    assert_eq!(board.state, BoardState::Check(Color::White));
}

#[test]
fn escaping_check_resumes_play() {
    let mut board = Board::default();
    board.remove_troop(Position { file: File::F, rank: Rank::Two });
    board.remove_troop(Position { file: File::C, rank: Rank::Seven });
    board
        .move_troop(
            Position { file: File::E, rank: Rank::One },
            Position { file: File::F, rank: Rank::Two },
        )
        .unwrap();
    board
        .move_troop(
            Position { file: File::D, rank: Rank::Eight },
            Position { file: File::B, rank: Rank::Six },
        )
        .unwrap();
    assert_eq!(board.state, BoardState::Check(Color::White));
    // Stepping back out of the queen's diagonal ends the check.
    assert_eq!(
        board.move_troop(
            Position { file: File::F, rank: Rank::Two },
            Position { file: File::E, rank: Rank::One },
        ),
        Ok(())
    );
    assert_eq!(board.state, BoardState::ToMove(Color::Black));
}
