use hnefatafl::moves::{possible_moves, Move, Position};
use hnefatafl::types::{Board, Hnfen, Player};

#[test]
fn display() {
    assert_eq!(Position::new('a', 11).unwrap().to_string(), "a11");
    assert_eq!(
        Move {
            from: Position::new('a', 11).unwrap(),
            to: Position::new('b', 1).unwrap(),
        }
        .to_string(),
        "a11b1",
    );
}

#[test]
fn index_conv() {
    assert_eq!(Position::from_indices(0, 0).to_string(), "a11");
    assert_eq!(Position::from_indices(10, 0).to_string(), "k11");
    assert_eq!(Position::from_indices(10, 10).to_string(), "k1");
    assert_eq!(Position::from_indices(0, 10).to_string(), "a1");
    assert_eq!(Position::from_indices(0, 0).to_indices(), (0, 0));
    assert_eq!(Position::from_indices(10, 10).to_indices(), (10, 10));
    assert_eq!(Position::from_indices(0, 10).to_indices(), (0, 10));
}

#[test]
fn get_moves_for_default() {
    let mut board = Board::default();
    let black_moves = possible_moves(&board);
    board.next = Player::White;
    let white_moves = possible_moves(&board);

    assert_eq!(black_moves.len(), 116);
    assert_eq!(white_moves.len(), 60);

    let board = Board::from_hnfen("11/11/11/11/11/11/11/11/11/11/11").unwrap();
    assert_eq!(possible_moves(&board).len(), 0);

    let board = Board::from_hnfen("h10/11/11/11/11/11/11/11/11/11/11 h").unwrap();
    assert_eq!(possible_moves(&board).len(), 20 - 2); // -2 bc of corners

    let board = Board::from_hnfen("a10/11/11/11/11/11/11/11/11/11/11").unwrap();
    assert_eq!(possible_moves(&board).len(), 20 - 2); // -2 bc of corners

    let board = Board::from_hnfen("11/11/11/11/h10/a10/h10/11/11/11/11").unwrap();
    assert_eq!(possible_moves(&board).len(), 10 - 1); // -1 bc of center castle

    let board = Board::from_hnfen("11/11/11/11/a10/h10/a10/11/11/11/11 h").unwrap();
    assert_eq!(possible_moves(&board).len(), 10 - 1); // -1 bc of center castle

    let board = Board::from_hnfen("11/11/11/11/a10/K10/a10/11/11/11/11 h").unwrap();
    assert_eq!(possible_moves(&board).len(), 10);
}

#[test]
fn moves_hnfen() {
    let ex_move = Move {
        from: Position::new('a', 11).unwrap(),
        to: Position::new('b', 1).unwrap(),
    };
    let ex_move_fen = "a11b1";

    assert_eq!(ex_move.as_hnfen(), ex_move_fen);
    assert_eq!(Move::from_hnfen(ex_move_fen).unwrap(), ex_move);
}
