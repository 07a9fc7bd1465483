use chess::Board;
use chess::Error;
use chess::File;
use chess::MoveError;
use chess::Position;
use chess::Rank;

#[test]
fn knight_standard_movement() {
    let mut board = Board::default();
    assert_eq!(
        board.move_troop(
            Position { file: File::B, rank: Rank::One },
            Position { file: File::C, rank: Rank::Three },
        ),
        Ok(()),
    );
}

#[test]
fn knight_invalid_movement() {
    let mut board = Board::default();
    assert_eq!(
        board.move_troop(
            Position { file: File::B, rank: Rank::One },
            Position { file: File::C, rank: Rank::Four },
        ),
        Err(Error::Move(MoveError::Other)),
    );
}
