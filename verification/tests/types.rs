use hnefatafl::types::{Board, Hnfen, Piece, Player, Rank};
use hnefatafl::DEFAULT_START_HNFEN;

#[test]
fn default_board() {
    Board::default();
}

#[test]
fn test_rank_to_hnfen() {
    let mut rank = Rank { fields: [None; 11] };
    assert_eq!(rank.as_hnfen(), "11");
    rank.fields[10] = Some(Piece::King);
    assert_eq!(rank.as_hnfen(), "10K");
    rank.fields[0] = Some(Piece::Normal(Player::Black));
    assert_eq!(rank.as_hnfen(), "a9K");
    rank.fields[5] = Some(Piece::Normal(Player::White)); // a....h....K
    assert_eq!(rank.as_hnfen(), "a4h4K");
}

#[test]
fn test_rank_from_hnfen() {
    let mut expected_success_cases = vec!["11", "10K", "K10", "a9K", "a4h4K"];
    expected_success_cases.extend(
        DEFAULT_START_HNFEN
            .split_ascii_whitespace()
            .next()
            .unwrap()
            .split("/"),
    );
    for case in expected_success_cases.into_iter() {
        assert_eq!(Rank::from_hnfen(case).unwrap().as_hnfen(), case);
    }

    assert_eq!(Rank::from_hnfen("00011").unwrap().as_hnfen(), "11");
    assert_eq!(Rank::from_hnfen("0a09a0").unwrap().as_hnfen(), "a9a");
}

#[test]
fn test_board_from_hnfen() {
    assert_eq!(
        Board::from_hnfen(DEFAULT_START_HNFEN).unwrap().as_hnfen(),
        DEFAULT_START_HNFEN
    );
}

#[test]
fn get_pieces_amount() {
    let board = Board::default();
    assert_eq!(board.pieces(Player::White).len(), 13);
    assert_eq!(board.pieces(Player::Black).len(), 24);
}
