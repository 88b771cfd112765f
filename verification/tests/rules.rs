use hnefatafl::moves::{
    in_board, is_castle, is_corner, possible_moves, Direction, Move, Position,
};
use hnefatafl::types::{Board, Hnfen, Piece, Player};

fn parsed(text: &str) -> Board {
    Board::from_hnfen(text).unwrap()
}

fn played(text: &str, mov: &str) -> String {
    let mut board = parsed(text);
    board.apply(&Move::from_hnfen(mov).unwrap());
    board.as_hnfen()
}

fn moves_of(text: &str) -> Vec<String> {
    possible_moves(&parsed(text))
        .iter()
        .map(|mov| mov.as_hnfen())
        .collect()
}

#[test]
fn index_round_trip() {
    for x in 0..11 {
        for y in 0..11 {
            assert_eq!(Position::from_indices(x, y).to_indices(), (x, y));
        }
    }
}

#[test]
fn indices_of_columns_and_rows() {
    let pos = Position::from_indices(3, 4);
    assert_eq!(pos.column(), 'd');
    assert_eq!(pos.rank(), 7);
    assert_eq!(Position::new('k', 11).unwrap().to_indices(), (10, 0));
}

#[test]
fn direction_vectors() {
    assert_eq!(Direction::Up.vector(1), (-1, 0));
    assert_eq!(Direction::Down.vector(1), (1, 0));
    assert_eq!(Direction::Left.vector(1), (0, -1));
    assert_eq!(Direction::Right.vector(1), (0, 1));
    assert_eq!(Direction::Up.vector(7), (-7, 0));
    assert_eq!(Direction::Right.vector(10), (0, 10));
    assert_eq!(Direction::Left.vector(0), (0, 0));
    assert_eq!(
        Direction::card(),
        [
            Direction::Up,
            Direction::Down,
            Direction::Left,
            Direction::Right
        ]
    );
}

#[test]
fn restricted_cells() {
    let mut corners = 0;
    let mut restricted = 0;
    for x in 0..11 {
        for y in 0..11 {
            let corner = (x == 0 || x == 10) && (y == 0 || y == 10);
            assert_eq!(is_corner(x, y), corner);
            assert_eq!(is_castle(x, y), corner || (x == 5 && y == 5));
            corners += is_corner(x, y) as usize;
            restricted += is_castle(x, y) as usize;
        }
    }
    assert_eq!(corners, 4);
    assert_eq!(restricted, 5);
    assert!(!is_corner(11, 11));
}

#[test]
fn cells_on_the_board() {
    assert!(in_board(0, 0));
    assert!(in_board(10, 10));
    assert!(in_board(0, 10));
    assert!(!in_board(-1, 0));
    assert!(!in_board(0, -1));
    assert!(!in_board(11, 0));
    assert!(!in_board(0, 11));
    assert!(!in_board(isize::MIN, isize::MAX));
}

#[test]
fn sides_of_pieces() {
    assert_eq!(Player::Black.opposite(), Player::White);
    assert_eq!(Player::White.opposite(), Player::Black);
    assert_eq!(Piece::Normal(Player::Black).color(), Player::Black);
    assert_eq!(Piece::Normal(Player::White).color(), Player::White);
    assert_eq!(Piece::King.color(), Player::White);
}

#[test]
fn get_and_set() {
    let mut board = parsed("11/11/11/11/11/11/11/11/11/11/11 h");
    let pos = Position::new('c', 9).unwrap();
    assert_eq!(board.get(&pos), None);
    board.set(&pos, &Some(Piece::King));
    assert_eq!(board.get(&pos), Some(Piece::King));
    assert_eq!(board.ranks[2].fields[2], Some(Piece::King));
    assert_eq!(board.as_hnfen(), "11/11/2K8/11/11/11/11/11/11/11/11 h");
    board.set(&pos, &None);
    assert_eq!(board.as_hnfen(), "11/11/11/11/11/11/11/11/11/11/11 h");
}

#[test]
fn pieces_come_row_by_row() {
    let board = parsed("2a8/11/h10/11/11/5K5/11/11/11/11/a9h");
    let white: Vec<String> = board
        .pieces(Player::White)
        .iter()
        .map(|pos| pos.to_string())
        .collect();
    assert_eq!(white, ["a9", "f6", "k1"]);
    let black: Vec<String> = board
        .pieces(Player::Black)
        .iter()
        .map(|pos| pos.to_string())
        .collect();
    assert_eq!(black, ["c11", "a1"]);
}

#[test]
fn pieces_of_the_empty_board() {
    let board = parsed("11/11/11/11/11/11/11/11/11/11/11");
    assert!(board.pieces(Player::White).is_empty());
    assert!(board.pieces(Player::Black).is_empty());
}

#[test]
fn king_is_found() {
    assert_eq!(
        Board::default().king(),
        Some(Position::new('f', 6).unwrap())
    );
    assert_eq!(parsed("11/11/11/11/11/11/11/11/11/11/11").king(), None);
    assert_eq!(parsed("aaaaaaaaaaa/11/11/11/11/11/11/11/11/11/hhhhhhhhhhh").king(), None);
    // of two kings the first one, row by row, counts
    assert_eq!(
        parsed("11/11/9K1/1K9/11/11/11/11/11/11/11").king(),
        Some(Position::new('j', 9).unwrap())
    );
}

#[test]
fn king_escapes_on_the_corners_alone() {
    let mut escapes = 0;
    for x in 0..11 {
        for y in 0..11 {
            let mut board = parsed("11/11/11/11/11/11/11/11/11/11/11");
            board.set(&Position::from_indices(x, y), &Some(Piece::King));
            let corner = (x == 0 || x == 10) && (y == 0 || y == 10);
            assert_eq!(board.king_escaped(), corner);
            escapes += board.king_escaped() as usize;
        }
    }
    assert_eq!(escapes, 4);
}

#[test]
fn no_king_no_escape() {
    assert!(!parsed("11/11/11/11/11/11/11/11/11/11/11").king_escaped());
    assert!(!parsed("a9a/11/11/11/11/11/11/11/11/11/h9h").king_escaped());
    assert!(!Board::default().king_escaped());
}

#[test]
fn empty_board_has_no_moves() {
    assert_eq!(moves_of("11/11/11/11/11/11/11/11/11/11/11 a").len(), 0);
    assert_eq!(moves_of("11/11/11/11/11/11/11/11/11/11/11 h").len(), 0);
}

#[test]
fn only_the_side_to_move_moves() {
    assert_eq!(moves_of("11/11/11/3a7/11/11/11/11/11/11/11 h").len(), 0);
    assert_eq!(moves_of("11/11/11/3h7/11/11/11/11/11/11/11 a").len(), 0);
    assert_eq!(moves_of("11/11/11/3K7/11/11/11/11/11/11/11 a").len(), 0);
    assert_eq!(moves_of("11/11/11/3a7/11/11/11/11/11/11/11 a").len(), 20);
    assert_eq!(moves_of("11/11/11/3K7/11/11/11/11/11/11/11 h").len(), 20);
}

#[test]
fn moves_come_in_order() {
    // the piece on b10: towards column a, towards column k, towards row 11,
    // towards row 1, each time the nearest cell first
    assert_eq!(
        moves_of("11/1a1a7/11/1h9/11/11/11/11/11/11/11 a"),
        [
            "b10a10", "b10c10", "b10b11", "b10b9", "d10c10", "d10e10", "d10f10", "d10g10",
            "d10h10", "d10i10", "d10j10", "d10k10", "d10d11", "d10d9", "d10d8", "d10d7", "d10d6",
            "d10d5", "d10d4", "d10d3", "d10d2", "d10d1"
        ]
    );
}

#[test]
fn a_piece_stops_before_a_corner() {
    // along the top row both corners are out of reach
    let moves = moves_of("5a5/11/11/11/11/11/11/11/11/11/11 a");
    // down the column the castle is no cell to end on either
    assert_eq!(moves.len(), 4 + 4 + 9);
    assert!(!moves.contains(&"f11a11".to_string()));
    assert!(!moves.contains(&"f11k11".to_string()));
    assert!(moves.contains(&"f11b11".to_string()));
    assert!(moves.contains(&"f11j11".to_string()));
    assert!(moves.contains(&"f11f1".to_string()));
    assert!(!moves.contains(&"f11f6".to_string()));
}

#[test]
fn the_king_reaches_the_corners() {
    let moves = moves_of("5K5/11/11/11/11/11/11/11/11/11/11 h");
    assert_eq!(moves.len(), 20);
    assert!(moves.contains(&"f11a11".to_string()));
    assert!(moves.contains(&"f11k11".to_string()));
}

#[test]
fn a_piece_passes_over_the_empty_castle() {
    let moves = moves_of("11/11/11/11/11/4a6/11/11/11/11/11 a");
    assert_eq!(moves.len(), 19);
    assert!(!moves.contains(&"e6f6".to_string()));
    assert!(moves.contains(&"e6g6".to_string()));
    assert!(moves.contains(&"e6k6".to_string()));
    let moves = moves_of("11/11/5h5/11/11/11/11/11/11/11/11 h");
    assert_eq!(moves.len(), 19);
    assert!(!moves.contains(&"f9f6".to_string()));
    assert!(moves.contains(&"f9f7".to_string()));
    assert!(moves.contains(&"f9f5".to_string()));
    assert!(moves.contains(&"f9f1".to_string()));
}

#[test]
fn the_king_lands_on_the_castle() {
    let moves = moves_of("11/11/11/11/11/4K6/11/11/11/11/11 h");
    assert_eq!(moves.len(), 20);
    assert!(moves.contains(&"e6f6".to_string()));
}

#[test]
fn the_occupied_castle_blocks() {
    let moves = moves_of("11/11/11/11/11/4aK5/11/11/11/11/11 a");
    assert_eq!(moves.len(), 14);
    assert!(!moves.contains(&"e6g6".to_string()));
    let moves = moves_of("11/11/11/11/11/4ah5/11/11/11/11/11 a");
    assert_eq!(moves.len(), 14);
}

#[test]
fn pieces_block_each_other() {
    let moves = moves_of("11/11/11/11/11/a1a8/11/11/11/11/11 a");
    // a6: one cell towards c6, four up and four down, short of the corners;
    // c6: one cell towards a6, eight towards k6 less the castle, five up,
    // five down
    assert_eq!(moves.len(), (1 + 4 + 4) + (1 + 7 + 5 + 5));
    assert!(!moves.contains(&"a6c6".to_string()));
    assert!(!moves.contains(&"a6d6".to_string()));
    let moves = moves_of("11/11/11/11/11/ah9/11/11/11/11/11 a");
    assert_eq!(moves.len(), 8);
}

#[test]
fn every_move_is_listed_once() {
    for text in [
        hnefatafl::DEFAULT_START_HNFEN,
        "3aaaaa3/5a5/11/a4h4a/a3hhh3a/aa1hhKhh1aa/a3hhh3a/a4h4a/11/5a5/3aaaaa3 h",
        "K10/11/11/11/11/11/11/11/11/11/11 h",
    ] {
        let mut moves = moves_of(text);
        let listed = moves.len();
        moves.sort();
        moves.dedup();
        assert_eq!(moves.len(), listed);
    }
}

#[test]
fn every_move_goes_to_an_empty_cell_in_line() {
    let board = Board::default();
    for mov in possible_moves(&board) {
        let (fx, fy) = mov.from.to_indices();
        let (tx, ty) = mov.to.to_indices();
        assert!((fx == tx) != (fy == ty));
        assert_eq!(board.get(&mov.to), None);
        assert_eq!(board.get(&mov.from), Some(Piece::Normal(Player::Black)));
        assert!(!is_castle(tx, ty));
    }
}

#[test]
fn capture_between_two_pieces() {
    assert_eq!(
        played("11/11/11/11/11/a1ha7/11/11/11/11/11 a", "a6b6"),
        "11/11/11/11/11/1a1a7/11/11/11/11/11 h"
    );
    assert_eq!(
        played("11/11/11/11/11/h1ah7/11/11/11/11/11 h", "a6b6"),
        "11/11/11/11/11/1h1h7/11/11/11/11/11 a"
    );
    // along a column
    assert_eq!(
        played("11/3a7/3h7/11/11/11/3a7/11/11/11/11 a", "d5d8"),
        "11/3a7/11/3a7/11/11/11/11/11/11/11 h"
    );
}

#[test]
fn capture_against_a_corner() {
    assert_eq!(
        played("1h9/11/11/2a8/11/11/11/11/11/11/11 a", "c8c11"),
        "2a8/11/11/11/11/11/11/11/11/11/11 h"
    );
    assert_eq!(
        played("11/11/11/11/11/11/11/11/6h4/10a/11 h", "g3k3"),
        "11/11/11/11/11/11/11/11/10h/11/11 a"
    );
}

#[test]
fn capture_against_the_castle() {
    assert_eq!(
        played("11/11/11/11/3a7/4h6/11/11/11/11/11 a", "d7d6"),
        "11/11/11/11/11/3a7/11/11/11/11/11 h"
    );
    assert_eq!(
        played("11/11/11/5a5/11/11/11/2h8/11/11/11 h", "c4c9"),
        "11/11/2h8/5a5/11/11/11/11/11/11/11 a"
    );
    assert_eq!(
        played("11/11/11/5a5/11/11/11/5h5/11/11/11 h", "f4f5"),
        "11/11/11/5a5/11/11/5h5/11/11/11/11 a"
    );
}

#[test]
fn capture_on_several_sides() {
    assert_eq!(
        played("11/11/3a7/3h7/a3ha5/3h7/3a7/11/11/11/11 a", "a7d7"),
        "11/11/3a7/11/3a1a5/11/3a7/11/11/11/11 h"
    );
}

#[test]
fn the_king_captures_as_a_defender() {
    assert_eq!(
        played("11/11/11/11/11/K1ah7/11/11/11/11/11 h", "a6b6"),
        "11/11/11/11/11/1K1h7/11/11/11/11/11 a"
    );
    assert_eq!(
        played("11/11/11/11/11/h1aK7/11/11/11/11/11 h", "a6b6"),
        "11/11/11/11/11/1h1K7/11/11/11/11/11 a"
    );
}

#[test]
fn no_capture_without_a_hostile_cell_behind() {
    assert_eq!(
        played("11/11/11/11/11/a1h8/11/11/11/11/11 a", "a6b6"),
        "11/11/11/11/11/1ah8/11/11/11/11/11 h"
    );
    // a piece of the other side behind it is no help
    assert_eq!(
        played("11/11/11/11/11/a1hh7/11/11/11/11/11 a", "a6b6"),
        "11/11/11/11/11/1ahh7/11/11/11/11/11 h"
    );
    // nor is the edge of the board
    assert_eq!(
        played("11/11/11/11/11/8a1h/11/11/11/11/11 a", "i6j6"),
        "11/11/11/11/11/9ah/11/11/11/11/11 h"
    );
    // a piece may move between two enemies
    assert_eq!(
        played("11/11/11/1h9/11/a1a8/11/11/11/11/11 h", "b8b6"),
        "11/11/11/11/11/aha8/11/11/11/11/11 a"
    );
}

#[test]
fn own_pieces_are_not_captured() {
    assert_eq!(
        played("11/11/11/11/11/a1aa7/11/11/11/11/11 a", "a6b6"),
        "11/11/11/11/11/1aaa7/11/11/11/11/11 h"
    );
}

#[test]
fn king_captured_on_four_sides() {
    let text = "11/11/3a7/2aKa6/11/3a7/11/11/11/11/11 a";
    assert_eq!(
        played(text, "d6d7"),
        "11/11/3a7/2a1a6/3a7/11/11/11/11/11/11 h"
    );
    let mut board = parsed(text);
    board.apply(&Move::from_hnfen("d6d7").unwrap());
    assert_eq!(board.king(), None);
}

#[test]
fn king_safe_with_an_empty_neighbour() {
    // each time one of the other three attackers is missing
    assert_eq!(
        played("11/11/11/2aKa6/11/3a7/11/11/11/11/11 a", "d6d7"),
        "11/11/11/2aKa6/3a7/11/11/11/11/11/11 h"
    );
    assert_eq!(
        played("11/11/3a7/3Ka6/11/3a7/11/11/11/11/11 a", "d6d7"),
        "11/11/3a7/3Ka6/3a7/11/11/11/11/11/11 h"
    );
    assert_eq!(
        played("11/11/3a7/2aK7/11/3a7/11/11/11/11/11 a", "d6d7"),
        "11/11/3a7/2aK7/3a7/11/11/11/11/11/11 h"
    );
}

#[test]
fn king_safe_with_a_defender_beside_him() {
    assert_eq!(
        played("11/11/3a7/2hKa6/11/3a7/11/11/11/11/11 a", "d6d7"),
        "11/11/3a7/2hKa6/3a7/11/11/11/11/11/11 h"
    );
}

#[test]
fn king_safe_on_the_edge() {
    assert_eq!(
        played("11/11/a10/K10/a10/11/1a9/11/11/11/11 a", "b5b8"),
        "11/11/a10/Ka9/a10/11/11/11/11/11/11 h"
    );
}

#[test]
fn king_captured_beside_the_castle() {
    assert_eq!(
        played("11/5a5/11/11/4aKa4/11/11/11/11/11/11 a", "f10f8"),
        "11/11/11/5a5/4a1a4/11/11/11/11/11/11 h"
    );
}

#[test]
fn defenders_do_not_capture_the_king() {
    assert_eq!(
        played("11/11/3h7/2hKh6/11/3h7/11/11/11/11/11 h", "d6d7"),
        "11/11/3h7/2hKh6/3h7/11/11/11/11/11/11 a"
    );
}

#[test]
fn would_the_king_be_captured() {
    let board = parsed("11/11/3a7/2a1a6/3a7/11/11/11/11/11/11 a");
    assert!(board.is_king_capture(&Position::new('d', 8).unwrap()));
    assert!(!board.is_king_capture(&Position::new('d', 9).unwrap()));
    assert!(!board.is_king_capture(&Position::new('e', 8).unwrap()));
    assert!(!board.is_king_capture(&Position::new('a', 1).unwrap()));
    let board = parsed("11/11/3a7/2a1h6/3a7/11/11/11/11/11/11 a");
    assert!(!board.is_king_capture(&Position::new('d', 8).unwrap()));
    let board = parsed("11/11/3a7/2a1K6/3a7/11/11/11/11/11/11 a");
    assert!(!board.is_king_capture(&Position::new('d', 8).unwrap()));
    // beside the castle three attackers are enough
    let board = parsed("11/11/11/11/4a1a4/11/5a5/11/11/11/11 a");
    assert!(!board.is_king_capture(&Position::new('f', 7).unwrap()));
    let board = parsed("11/11/11/5a5/4a1a4/11/11/11/11/11/11 a");
    assert!(board.is_king_capture(&Position::new('f', 7).unwrap()));
    // beside a corner the edge of the board still saves the king
    let board = parsed("2a8/1a9/11/11/11/11/11/11/11/11/11 a");
    assert!(!board.is_king_capture(&Position::new('b', 11).unwrap()));
}

#[test]
fn move_from_an_empty_cell_changes_nothing() {
    let text = "11/11/11/11/11/a1ha7/11/11/11/11/11 a";
    assert_eq!(played(text, "b6c6"), text);
    assert_eq!(played(text, "k1k2"), text);
    let text = "11/11/11/11/11/a1ha7/11/11/11/11/11 h";
    assert_eq!(played(text, "b6c6"), text);
}

#[test]
fn the_side_to_move_follows_the_piece_moved() {
    // the mover's side, not the side that was to move, decides who is next
    assert_eq!(
        played("11/11/11/11/11/a10/11/11/11/11/11 h", "a6a7"),
        "11/11/11/11/a10/11/11/11/11/11/11 h"
    );
    assert_eq!(
        played("11/11/11/11/11/K10/11/11/11/11/11 a", "a6a7"),
        "11/11/11/11/K10/11/11/11/11/11/11 a"
    );
    assert_eq!(
        played("11/11/11/11/11/h10/11/11/11/11/11 h", "a6a7"),
        "11/11/11/11/h10/11/11/11/11/11/11 a"
    );
}

#[test]
fn a_game_in_turns() {
    let mut board = Board::default();
    for (mov, after) in [
        (
            "d11d9",
            "4aaaa3/5a5/3a7/a4h4a/a3hhh3a/aa1hhKhh1aa/a3hhh3a/a4h4a/11/5a5/3aaaaa3 h",
        ),
        (
            "e7c7",
            "4aaaa3/5a5/3a7/a4h4a/a1h2hh3a/aa1hhKhh1aa/a3hhh3a/a4h4a/11/5a5/3aaaaa3 a",
        ),
    ] {
        let mov = Move::from_hnfen(mov).unwrap();
        assert!(possible_moves(&board).contains(&mov));
        board.apply(&mov);
        assert_eq!(board.as_hnfen(), after);
    }
}

#[test]
fn a_move_puts_no_second_king_on_the_board() {
    let mut board = Board::default();
    for _ in 0..40 {
        let moves = possible_moves(&board);
        if moves.is_empty() {
            break;
        }
        // the move in the middle of the list, for a game that wanders
        board.apply(&moves[moves.len() / 2]);
        let kings = board
            .ranks
            .iter()
            .flat_map(|rank| rank.fields.iter())
            .filter(|field| **field == Some(Piece::King))
            .count();
        assert!(kings <= 1);
        assert_eq!(board.king().is_some(), kings == 1);
    }
}

#[test]
fn moves_of_both_sides_in_turn() {
    let mut board = Board::default();
    let mut side = Player::Black;
    for _ in 0..20 {
        assert_eq!(board.next, side);
        let moves = possible_moves(&board);
        for mov in &moves {
            assert_eq!(board.get(&mov.from).map(|piece| piece.color()), Some(side));
            assert_eq!(board.get(&mov.to), None);
        }
        board.apply(&moves[0]);
        side = side.opposite();
    }
}
