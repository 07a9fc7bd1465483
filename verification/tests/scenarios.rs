use chess::Board;
use chess::BoardState;
use chess::Color;
use chess::Error;
use chess::File;
use chess::MoveError;
use chess::Piece;
use chess::Position;
use chess::Rank;
use chess::Troop;

#[test]
fn pawn_advance_updates_board() {
    let mut board = Board::default();
    let from = Position { file: File::A, rank: Rank::Two };
    let to = Position { file: File::A, rank: Rank::Three };
    assert_eq!(board.move_troop(from, to), Ok(()));
    let landed = board.get_square(&to);
    match landed.troop {
        Some(t) => {
            assert_eq!(t.piece, Piece::Pawn);
            assert_eq!(t.color, Color::White);
            assert_eq!(t.position, to);
        },
        None => panic!("destination square is empty"),
    }
    assert!(board.get_square(&from).troop.is_none());
    assert_eq!(board.state, BoardState::ToMove(Color::Black));
}

#[test]
fn pawn_double_step_blocked_leaves_board_unchanged() {
    let mut board = Board::default();
    board
        .place_troop(Troop {
            piece: Piece::Pawn,
            color: Color::White,
            position: Position { file: File::A, rank: Rank::Three },
        })
        .unwrap();
    let snapshot = board.clone();
    assert_eq!(
        board.move_troop(
            Position { file: File::A, rank: Rank::Two },
            Position { file: File::A, rank: Rank::Four }
        ),
        Err(Error::Move(MoveError::Other))
    );
    assert_eq!(board, snapshot);
}

#[test]
fn king_two_squares_leaves_board_unchanged() {
    let mut board = Board::default();
    let snapshot = board.clone();
    assert_eq!(
        board.move_troop(
            Position { file: File::E, rank: Rank::One },
            Position { file: File::E, rank: Rank::Three }
        ),
        Err(Error::Move(MoveError::Other))
    );
    assert_eq!(board, snapshot);
}

#[test]
fn king_sidestep_flips_turn() {
    let mut board = Board::default();
    board.remove_troop(Position { file: File::F, rank: Rank::Two });
    assert_eq!(
        board.move_troop(
            Position { file: File::E, rank: Rank::One },
            Position { file: File::F, rank: Rank::Two }
        ),
        Ok(())
    );
    assert_eq!(board.state, BoardState::ToMove(Color::Black));
}

#[test]
fn bishop_off_diagonal_reports_geometry() {
    let mut board = Board::default();
    let snapshot = board.clone();
    assert_eq!(
        board.move_troop(
            Position { file: File::C, rank: Rank::One },
            Position { file: File::C, rank: Rank::Four }
        ),
        Err(Error::Move(MoveError::InvalidPath(
            "Bishop must move in a purely diagonal line"
        )))
    );
    assert_eq!(board, snapshot);
}

#[test]
fn turn_alternates_over_successive_moves() {
    let mut board = Board::default();
    assert_eq!(board.state, BoardState::ToMove(Color::White));
    board
        .move_troop(
            Position { file: File::E, rank: Rank::Two },
            Position { file: File::E, rank: Rank::Four },
        )
        .unwrap();
    assert_eq!(board.state, BoardState::ToMove(Color::Black));
    board
        .move_troop(
            Position { file: File::E, rank: Rank::Seven },
            Position { file: File::E, rank: Rank::Five },
        )
        .unwrap();
    assert_eq!(board.state, BoardState::ToMove(Color::White));
    board
        .move_troop(
            Position { file: File::G, rank: Rank::One },
            Position { file: File::F, rank: Rank::Three },
        )
        .unwrap();
    assert_eq!(board.state, BoardState::ToMove(Color::Black));
}

#[test]
fn troop_positions_stay_consistent() {
    let mut board = Board::default();
    board
        .move_troop(
            Position { file: File::B, rank: Rank::One },
            Position { file: File::C, rank: Rank::Three },
        )
        .unwrap();
    board
        .move_troop(
            Position { file: File::D, rank: Rank::Seven },
            Position { file: File::D, rank: Rank::Five },
        )
        .unwrap();
    board
        .move_troop(
            Position { file: File::C, rank: Rank::Three },
            Position { file: File::D, rank: Rank::Five },
        )
        .unwrap();
    let files = [
        File::A,
        File::B,
        File::C,
        File::D,
        File::E,
        File::F,
        File::G,
        File::H,
    ];
    let ranks = [
        Rank::One,
        Rank::Two,
        Rank::Three,
        Rank::Four,
        Rank::Five,
        Rank::Six,
        Rank::Seven,
        Rank::Eight,
    ];
    let mut troops = 0;
    for file in files {
        for rank in ranks {
            let position = Position { file, rank };
            let square = board.get_square(&position);
            assert_eq!(square.position, position);
            if let Some(t) = square.troop {
                assert_eq!(t.position, position);
                troops += 1;
            }
        }
    }
    // One black pawn was captured out of the 32 starting troops.
    assert_eq!(troops, 31);
}

#[test]
fn mirrored_pawns_have_mirrored_moves() {
    // The starting position is its own rank-mirror with the colors swapped,
    // so the White pawn on A2 and the Black pawn on A7 must see mirrored
    // destination sets.
    let board = Board::default();
    let white_pawn = board
        .get_square(&Position { file: File::A, rank: Rank::Two })
        .troop
        .unwrap();
    let black_pawn = board
        .get_square(&Position { file: File::A, rank: Rank::Seven })
        .troop
        .unwrap();
    let white_moves = board.valid_moves(&white_pawn);
    let black_moves = board.valid_moves(&black_pawn);
    assert_eq!(white_moves.len(), black_moves.len());
    for sq in white_moves.iter() {
        let mirrored_rank = match sq.position.rank {
            Rank::Three => Rank::Six,
            Rank::Four => Rank::Five,
            other => panic!("unexpected pawn destination rank {:?}", other),
        };
        let mirrored = Position { file: sq.position.file, rank: mirrored_rank };
        assert!(black_moves.iter().any(|m| m.position == mirrored));
    }
}

#[test]
fn knight_opening_moves() {
    let board = Board::default();
    let knight = board
        .get_square(&Position { file: File::B, rank: Rank::One })
        .troop
        .unwrap();
    let moves = board.valid_moves(&knight);
    assert_eq!(moves.len(), 2);
    assert!(moves
        .iter()
        .any(|m| m.position == Position { file: File::A, rank: Rank::Three }));
    assert!(moves
        .iter()
        .any(|m| m.position == Position { file: File::C, rank: Rank::Three }));
}

#[test]
fn rook_boxed_in_has_no_moves() {
    let board = Board::default();
    let rook = board
        .get_square(&Position { file: File::A, rank: Rank::One })
        .troop
        .unwrap();
    assert_eq!(board.valid_moves(&rook).len(), 0);
}

#[test]
fn queen_moves_combine_rook_and_bishop_rays() {
    let mut board = Board::default();
    board.remove_troop(Position { file: File::D, rank: Rank::Two });
    board.remove_troop(Position { file: File::E, rank: Rank::Two });
    let queen = board
        .get_square(&Position { file: File::D, rank: Rank::One })
        .troop
        .unwrap();
    let moves = board.valid_moves(&queen);
    // Up the D file to the black pawn on D7, and up the D1-H5 diagonal.
    assert!(moves
        .iter()
        .any(|m| m.position == Position { file: File::D, rank: Rank::Seven }));
    assert!(!moves
        .iter()
        .any(|m| m.position == Position { file: File::D, rank: Rank::Eight }));
    assert!(moves
        .iter()
        .any(|m| m.position == Position { file: File::H, rank: Rank::Five }));
    assert_eq!(moves.len(), 10);
}

#[test]
fn is_in_check_sees_diagonal_attack() {
    let mut board = Board::default();
    assert!(!board.is_in_check(Color::White));
    assert!(!board.is_in_check(Color::Black));
    board.remove_troop(Position { file: File::F, rank: Rank::Two });
    board
        .place_troop(Troop {
            color: Color::Black,
            piece: Piece::Bishop,
            position: Position { file: File::H, rank: Rank::Four },
        })
        .unwrap();
    assert!(board.is_in_check(Color::White));
    assert!(!board.is_in_check(Color::Black));
}
