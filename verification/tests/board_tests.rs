use bobot::{Board, BoardInvariantError, Color, MoveError, Position, ZobristHasher};

fn hasher() -> ZobristHasher {
    ZobristHasher::new(Board::SIZE, &mut rand::rng())
}

#[test]
fn empty_board() {
    let hasher = hasher();
    let board = Board::new();

    assert_eq!(
        board.play_stone(Position::new(0, 0), Color::Black, &hasher),
        Ok(Board::from_ascii("x", &hasher).unwrap())
    );
}

#[test]
fn next_to_opponent_no_capture() {
    let hasher = hasher();
    let board = Board::from_ascii("o", &hasher).unwrap();

    assert_eq!(
        board.play_stone(Position::new(1, 0), Color::Black, &hasher),
        Ok(Board::from_ascii("o\nx", &hasher).unwrap())
    );
}

#[test]
fn corner_capture() {
    let hasher = hasher();
    let board = Board::from_ascii("ox", &hasher).unwrap();

    assert_eq!(
        board.play_stone(Position::new(1, 0), Color::Black, &hasher),
        Ok(Board::from_ascii(".x\nx", &hasher).unwrap())
    );
}

#[test]
fn corner_capture2() {
    let hasher = hasher();
    let board = Board::from_ascii("\n\n\n\n\n\n\n\n\n\n\n\n...........xo", &hasher).unwrap();

    assert_eq!(
        board.play_stone(Position::new(11, 12), Color::Black, &hasher),
        Ok(Board::from_ascii(
            "\n\n\n\n\n\n\n\n\n\n\n............x\n...........x.",
            &hasher
        )
        .unwrap())
    );
}

#[test]
fn playing_nonempty_position() {
    let hasher = hasher();
    let board = Board::from_ascii("x", &hasher).unwrap();

    assert_eq!(
        board.play_stone(Position::new(0, 0), Color::Black, &hasher),
        Err(MoveError::NonEmptyPosition)
    );
}

#[test]
fn suicide() {
    let hasher = hasher();
    let board = Board::from_ascii(".ooooo\noxxxxo\noxx.xo\noxxxxo\noooooo", &hasher).unwrap();
    assert_eq!(
        board.play_stone(Position::new(2, 3), Color::Black, &hasher),
        Err(MoveError::Suicide)
    );
}

#[test]
fn not_suicide() {
    let hasher = hasher();
    let board = Board::from_ascii(".ooooo\noxxxxo\noxx.xo\noxxxxo\nooo.oo", &hasher).unwrap();
    assert_eq!(
        board.play_stone(Position::new(2, 3), Color::Black, &hasher),
        Ok(Board::from_ascii(".ooooo\noxxxxo\noxxxxo\noxxxxo\nooo.oo", &hasher).unwrap())
    );
}

#[test]
fn liberty_from_captured_stone() {
    let hasher = hasher();
    let board = Board::from_ascii("oxo\n.xo\nooo", &hasher).unwrap();

    assert_eq!(
        board.play_stone(Position::new(1, 0), Color::Black, &hasher),
        Ok(Board::from_ascii(".xo\nxxo\nooo", &hasher).unwrap())
    );
}

#[test]
fn capture_multiple() {
    let hasher = hasher();
    let board = Board::from_ascii("oo.oox\nxxxxxx", &hasher).unwrap();

    assert_eq!(
        board.play_stone(Position::new(0, 2), Color::Black, &hasher),
        Ok(Board::from_ascii("..x..x\nxxxxxx", &hasher).unwrap())
    );
}

#[test]
fn capture_multiple_liberty_from_captured() {
    let hasher = hasher();
    let board = Board::from_ascii("oo.oox\nxxoxxx", &hasher).unwrap();

    assert_eq!(
        board.play_stone(Position::new(0, 2), Color::Black, &hasher),
        Ok(Board::from_ascii("..x..x\nxxoxxx", &hasher).unwrap())
    );
}

#[test]
fn capture_one_of_two_groups() {
    let hasher = hasher();
    let board = Board::from_ascii("oo.oo\nxxxxxx", &hasher).unwrap();

    assert_eq!(
        board.play_stone(Position::new(0, 2), Color::Black, &hasher),
        Ok(Board::from_ascii("..xoo\nxxxxxx", &hasher).unwrap())
    );
}

#[test]
fn full_board_one_move() {
    let hasher = hasher();
    let board = Board::from_ascii(
        "xxxxxxxxxxxxx\n\
         xxxxxxxxxxxxx\n\
         xxxxxxxxxxxxx\n\
         xxxxxxxxxxxxx\n\
         xxxxxxxxxxxxx\n\
         xxxxxxxxxxxxx\n\
         xxxxxx.oooooo\n\
         ooooooooooooo\n\
         ooooooooooooo\n\
         ooooooooooooo\n\
         ooooooooooooo\n\
         ooooooooooooo\n\
         ooooooooooooo",
        &hasher,
    )
    .unwrap();

    let black_legal_moves: Vec<_> = board
        .legal_moves(Color::Black, &hasher)
        .into_iter()
        .map(|(pos, _board)| pos)
        .collect();
    let white_legal_moves: Vec<_> = board
        .legal_moves(Color::White, &hasher)
        .into_iter()
        .map(|(pos, _board)| pos)
        .collect();

    assert_eq!(black_legal_moves, vec![Position::new(6, 6)]);
    assert_eq!(white_legal_moves, vec![Position::new(6, 6)]);
}

#[test]
fn full_board_no_moves_for_black() {
    let hasher = hasher();
    let board = Board::from_ascii(
        "xxxxxxxxxxxxx\n\
         xxxxxxxxxxxxx\n\
         xxxxxxxxxxxxx\n\
         xxxxxxxxxxxxx\n\
         xxxxxxxxxxxxx\n\
         xxxxxxxxxxxxx\n\
         xxxxxx.xxxxxx\n\
         xxxxxxxxxxxxx\n\
         xxxxxxxxxxxxx\n\
         xxxxxxxxxxxxx\n\
         xxxxxxxxxxxxx\n\
         xxxxxxxxxxxxx\n\
         xxxxxxxxxxxxx",
        &hasher,
    )
    .unwrap();

    assert_eq!(board.legal_moves(Color::Black, &hasher).len(), 0);
    assert_eq!(board.legal_moves(Color::White, &hasher).len(), 1);
}

#[test]
fn board_empty() {
    assert_eq!(Board::new().score(), [0, 0].into());
}

#[test]
fn example() {
    let hasher = hasher();
    let board = Board::from_ascii("\n\n\nxxxxxxxxxxxxx\n\n\n\nooooooooooooo", &hasher).unwrap();

    assert_eq!(board.score(), [4 * 13, 6 * 13].into());
}

#[test]
fn empty_positions_outside_board() {
    let hasher = hasher();

    assert!(Board::from_ascii(
        "\n...x\n\n\n\n\n......................................................\n\
        \n\n\n\n\n\n\n\n\n\n\n\n\n\n\n\n\n\n\n",
        &hasher
    )
    .is_ok());
}

#[test]
fn too_long_row() {
    let hasher = hasher();

    assert_eq!(
        Board::from_ascii("\n..........................x", &hasher),
        Err(BoardInvariantError::StoneOutsideBoard)
    );
}

#[test]
fn too_many_rows() {
    let hasher = hasher();

    assert_eq!(
        Board::from_ascii(
            "\n...x\n\n\n\n\n\n\n\n\n\n\n\n\n\n\n\n\n\n\n\n\n\n\n\n\nx",
            &hasher
        ),
        Err(BoardInvariantError::StoneOutsideBoard)
    );
}
