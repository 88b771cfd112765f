//! The starting position of the standard game.
use crate::notation::{lemma_empty_run_is, piece_char, rank_text, ranks_text};
use crate::round_trip::lemma_board_round_trip;
use crate::text::decimal;
use crate::types::{Board, Hnfen, HnfenError, Piece, Player, Rank};
use crate::DEFAULT_START_HNFEN;
use vstd::prelude::*;

verus! {

/// The text of a row from a piece on: its letter, then the text of the rest.
proof fn lemma_text_piece(cells: Seq<Option<Piece>>, i: int)
    requires
        0 <= i < cells.len(),
        cells[i] is Some,
    ensures
        rank_text(cells.skip(i)) == seq![piece_char(cells[i]->0)] + rank_text(cells.skip(i + 1)),
{
    assert(cells.skip(i).skip(1) =~= cells.skip(i + 1));
}

/// The text of a row from a run of empty cells on: the length of the run,
/// then the text of the rest.
proof fn lemma_text_run(cells: Seq<Option<Piece>>, i: int, j: int)
    requires
        0 <= i < j <= cells.len(),
        forall|k: int| i <= k < j ==> (#[trigger] cells[k]) is None,
        j < cells.len() ==> cells[j] is Some,
    ensures
        rank_text(cells.skip(i)) == decimal((j - i) as nat) + rank_text(cells.skip(j)),
{
    let rest = cells.skip(i);
    assert forall|k: int| 0 <= k < j - i implies (#[trigger] rest[k]) is None by {
        assert(rest[k] == cells[i + k]);
    }
    lemma_empty_run_is(rest, j - i);
    assert(rest.skip(j - i) =~= cells.skip(j));
}

/// The text of a row that has come to its end.
proof fn lemma_text_end(cells: Seq<Option<Piece>>)
    ensures
        rank_text(cells.skip(cells.len() as int)) == Seq::<char>::empty(),
{
}

/// The texts of the ranks from one that is not the last on: its text, the
/// separator, then the texts of the rest.
proof fn lemma_ranks_step(ranks: Seq<Rank>, i: int)
    requires
        0 <= i < ranks.len() - 1,
    ensures
        ranks_text(ranks.skip(i)) == ranks[i].notation() + seq!['/'] + ranks_text(
            ranks.skip(i + 1),
        ),
{
    assert(ranks.skip(i).skip(1) =~= ranks.skip(i + 1));
}

/// The rank `3aaaaa3`.
fn outer_rank() -> (rank: Rank)
    ensures
        rank.notation() == "3aaaaa3"@,
{
    let a = Some(Piece::Normal(Player::Black));
    let rank = Rank { fields: [None, None, None, a, a, a, a, a, None, None, None] };
    proof {
        let cells = rank.fields@;
        reveal_strlit("3aaaaa3");
        reveal_with_fuel(decimal, 2);
        lemma_text_run(cells, 0, 3);
        lemma_text_piece(cells, 3);
        lemma_text_piece(cells, 4);
        lemma_text_piece(cells, 5);
        lemma_text_piece(cells, 6);
        lemma_text_piece(cells, 7);
        lemma_text_run(cells, 8, 11);
        lemma_text_end(cells);
        assert(cells.skip(0) =~= cells);
        assert(rank_text(cells) =~= "3aaaaa3"@);
    }
    rank
}

/// The rank `5a5`.
fn gate_rank() -> (rank: Rank)
    ensures
        rank.notation() == "5a5"@,
{
    let a = Some(Piece::Normal(Player::Black));
    let rank = Rank { fields: [None, None, None, None, None, a, None, None, None, None, None] };
    proof {
        let cells = rank.fields@;
        reveal_strlit("5a5");
        reveal_with_fuel(decimal, 2);
        lemma_text_run(cells, 0, 5);
        lemma_text_piece(cells, 5);
        lemma_text_run(cells, 6, 11);
        lemma_text_end(cells);
        assert(cells.skip(0) =~= cells);
        assert(rank_text(cells) =~= "5a5"@);
    }
    rank
}

/// The rank `11`.
fn empty_rank() -> (rank: Rank)
    ensures
        rank.notation() == "11"@,
{
    let rank = Rank {
        fields: [None, None, None, None, None, None, None, None, None, None, None],
    };
    proof {
        let cells = rank.fields@;
        reveal_strlit("11");
        reveal_with_fuel(decimal, 2);
        lemma_text_run(cells, 0, 11);
        lemma_text_end(cells);
        assert(cells.skip(0) =~= cells);
        assert(rank_text(cells) =~= "11"@);
    }
    rank
}

/// The rank `a4h4a`.
fn guard_rank() -> (rank: Rank)
    ensures
        rank.notation() == "a4h4a"@,
{
    let a = Some(Piece::Normal(Player::Black));
    let h = Some(Piece::Normal(Player::White));
    let rank = Rank { fields: [a, None, None, None, None, h, None, None, None, None, a] };
    proof {
        let cells = rank.fields@;
        reveal_strlit("a4h4a");
        reveal_with_fuel(decimal, 2);
        lemma_text_piece(cells, 0);
        lemma_text_run(cells, 1, 5);
        lemma_text_piece(cells, 5);
        lemma_text_run(cells, 6, 10);
        lemma_text_piece(cells, 10);
        lemma_text_end(cells);
        assert(cells.skip(0) =~= cells);
        assert(rank_text(cells) =~= "a4h4a"@);
    }
    rank
}

/// The rank `a3hhh3a`.
fn wall_rank() -> (rank: Rank)
    ensures
        rank.notation() == "a3hhh3a"@,
{
    let a = Some(Piece::Normal(Player::Black));
    let h = Some(Piece::Normal(Player::White));
    let rank = Rank { fields: [a, None, None, None, h, h, h, None, None, None, a] };
    proof {
        let cells = rank.fields@;
        reveal_strlit("a3hhh3a");
        reveal_with_fuel(decimal, 2);
        lemma_text_piece(cells, 0);
        lemma_text_run(cells, 1, 4);
        lemma_text_piece(cells, 4);
        lemma_text_piece(cells, 5);
        lemma_text_piece(cells, 6);
        lemma_text_run(cells, 7, 10);
        lemma_text_piece(cells, 10);
        lemma_text_end(cells);
        assert(cells.skip(0) =~= cells);
        assert(rank_text(cells) =~= "a3hhh3a"@);
    }
    rank
}

/// The rank `aa1hhKhh1aa`.
fn king_rank() -> (rank: Rank)
    ensures
        rank.notation() == "aa1hhKhh1aa"@,
{
    let a = Some(Piece::Normal(Player::Black));
    let h = Some(Piece::Normal(Player::White));
    let rank = Rank { fields: [a, a, None, h, h, Some(Piece::King), h, h, None, a, a] };
    proof {
        let cells = rank.fields@;
        reveal_strlit("aa1hhKhh1aa");
        reveal_with_fuel(decimal, 2);
        lemma_text_piece(cells, 0);
        lemma_text_piece(cells, 1);
        lemma_text_run(cells, 2, 3);
        lemma_text_piece(cells, 3);
        lemma_text_piece(cells, 4);
        lemma_text_piece(cells, 5);
        lemma_text_piece(cells, 6);
        lemma_text_piece(cells, 7);
        lemma_text_run(cells, 8, 9);
        lemma_text_piece(cells, 9);
        lemma_text_piece(cells, 10);
        lemma_text_end(cells);
        assert(cells.skip(0) =~= cells);
        assert(rank_text(cells) =~= "aa1hhKhh1aa"@);
    }
    rank
}

impl Default for Board {
    /// The starting position: the board that `DEFAULT_START_HNFEN` stands
    /// for.
    fn default() -> (board: Board)
        ensures
            board.notation() == DEFAULT_START_HNFEN@,
            Board::denoted(DEFAULT_START_HNFEN@) == Ok::<Board, HnfenError>(board),
    {
        let board = Board {
            ranks: [
                outer_rank(),
                gate_rank(),
                empty_rank(),
                guard_rank(),
                wall_rank(),
                king_rank(),
                wall_rank(),
                guard_rank(),
                empty_rank(),
                gate_rank(),
                outer_rank(),
            ],
            next: Player::Black,
        };
        proof {
            let rows = board.ranks@;
            reveal_strlit("3aaaaa3");
            reveal_strlit("5a5");
            reveal_strlit("11");
            reveal_strlit("a4h4a");
            reveal_strlit("a3hhh3a");
            reveal_strlit("aa1hhKhh1aa");
            reveal_strlit(
                "3aaaaa3/5a5/11/a4h4a/a3hhh3a/aa1hhKhh1aa/a3hhh3a/a4h4a/11/5a5/3aaaaa3 a",
            );
            lemma_ranks_step(rows, 0);
            lemma_ranks_step(rows, 1);
            lemma_ranks_step(rows, 2);
            lemma_ranks_step(rows, 3);
            lemma_ranks_step(rows, 4);
            lemma_ranks_step(rows, 5);
            lemma_ranks_step(rows, 6);
            lemma_ranks_step(rows, 7);
            lemma_ranks_step(rows, 8);
            lemma_ranks_step(rows, 9);
            assert(ranks_text(rows.skip(10)) == rows[10].notation());
            assert(rows.skip(0) =~= rows);
            assert(board.notation() =~= DEFAULT_START_HNFEN@);
            lemma_board_round_trip(board);
        }
        board
    }
}

} // verus!
