//! Reading back what was written: the text of a value stands for that value.
use crate::moves::{on_board, Move, Position};
use crate::notation::{
    after_first_word, all_ranks, board_denoted, empties, empty_run, fields, first_word,
    lemma_empty_run, position_denoted, position_text, rank_cells, rank_denoted, rank_text,
    ranks_text,
};
use crate::text::{all_digits, decimal, is_digit, lemma_decimal, lemma_run_len_is, CharClass};
use crate::types::{Board, Hnfen, HnfenError, Piece, Player, Rank};
use vstd::prelude::*;

verus! {

/// Whether `c` is a character of which the text of a rank is made: a digit
/// or the letter of a piece.
pub open spec fn is_rank_char(c: char) -> bool {
    is_digit(c) || c == 'a' || c == 'h' || c == 'K'
}

/// The letter of a side stands for that side.
pub proof fn lemma_player_round_trip(player: Player)
    ensures
        Player::denoted(player.notation()) == Ok::<Player, HnfenError>(player),
{
}

/// The letter of a piece stands for that piece.
pub proof fn lemma_piece_round_trip(piece: Piece)
    ensures
        Piece::denoted(piece.notation()) == Ok::<Piece, HnfenError>(piece),
{
}

/// The text of a row is made of digits and piece letters, and begins with a
/// letter where the row begins with a piece.
pub proof fn lemma_rank_text_chars(cells: Seq<Option<Piece>>)
    ensures
        forall|i: int|
            0 <= i < rank_text(cells).len() ==> is_rank_char(#[trigger] rank_text(cells)[i]),
        cells.len() > 0 ==> rank_text(cells).len() > 0,
        cells.len() > 0 && cells[0] is Some ==> !is_digit(rank_text(cells)[0]),
    decreases cells.len(),
{
    if cells.len() > 0 {
        match cells[0] {
            Some(piece) => {
                lemma_rank_text_chars(cells.skip(1));
                let tail = rank_text(cells.skip(1));
                assert forall|i: int| 0 <= i < rank_text(cells).len() implies is_rank_char(
                    #[trigger] rank_text(cells)[i],
                ) by {
                    if i > 0 {
                        assert(rank_text(cells)[i] == tail[i - 1]);
                    }
                }
            },
            None => {
                lemma_empty_run(cells);
                let n = empty_run(cells);
                lemma_decimal(n);
                lemma_rank_text_chars(cells.skip(n as int));
                let head = decimal(n);
                let tail = rank_text(cells.skip(n as int));
                assert forall|i: int| 0 <= i < rank_text(cells).len() implies is_rank_char(
                    #[trigger] rank_text(cells)[i],
                ) by {
                    if i < head.len() {
                        assert(rank_text(cells)[i] == head[i]);
                    } else {
                        assert(rank_text(cells)[i] == tail[i - head.len()]);
                    }
                }
            },
        }
    }
}

/// The text of a row stands for that row.
pub proof fn lemma_rank_cells_of_text(cells: Seq<Option<Piece>>)
    ensures
        rank_cells(rank_text(cells)) == Some(cells),
    decreases cells.len(),
{
    let text = rank_text(cells);
    if cells.len() == 0 {
        assert(cells =~= Seq::empty());
    } else {
        match cells[0] {
            Some(piece) => {
                let rest = cells.skip(1);
                lemma_rank_cells_of_text(rest);
                assert(text.skip(1) =~= rank_text(rest));
                assert(seq![Some(piece)] + rest =~= cells);
            },
            None => {
                lemma_empty_run(cells);
                let n = empty_run(cells);
                let rest = cells.skip(n as int);
                let head = decimal(n);
                let tail = rank_text(rest);
                lemma_decimal(n);
                lemma_rank_cells_of_text(rest);
                lemma_rank_text_chars(rest);
                assert forall|i: int| 0 <= i < head.len() implies CharClass::Digit.has(
                    #[trigger] text[i],
                ) by {
                    assert(text[i] == head[i]);
                }
                if head.len() < text.len() {
                    assert(text[head.len() as int] == tail[0]);
                    assert(rest[0] == cells[n as int]);
                }
                lemma_run_len_is(text, CharClass::Digit, head.len() as int);
                assert(text[0] == head[0]);
                assert(text.take(head.len() as int) =~= head);
                assert(text.skip(head.len() as int) =~= tail);
                assert(empties(n) + rest =~= cells);
            },
        }
    }
}

/// The text of a rank stands for that rank.
pub proof fn lemma_rank_round_trip(rank: Rank)
    ensures
        Rank::denoted(rank.notation()) == Ok::<Rank, HnfenError>(rank),
{
    lemma_rank_cells_of_text(rank.fields@);
    rank.lemma_of();
}

/// The text of a cell of the board stands for the position of that cell.
pub proof fn lemma_position_text(x: int, y: int)
    requires
        on_board(x, y),
    ensures
        position_denoted(position_text(x, y)) == Ok::<Position, HnfenError>(Position::at(x, y)),
        2 <= position_text(x, y).len() <= 3,
        !is_digit(position_text(x, y)[0]),
        all_digits(position_text(x, y).skip(1)),
{
    let text = position_text(x, y);
    let row = (11 - y) as nat;
    lemma_decimal(row);
    assert(text.skip(1) =~= decimal(row));
}

/// The text of a position stands for that position.
pub proof fn lemma_position_round_trip(pos: Position)
    requires
        pos.wf(),
    ensures
        Position::denoted(pos.notation()) == Ok::<Position, HnfenError>(pos),
{
    pos.lemma_wf();
    lemma_position_text(pos.x(), pos.y());
}

/// The text of a move stands for that move.
pub proof fn lemma_move_round_trip(mov: Move)
    requires
        mov.wf(),
    ensures
        Move::denoted(mov.notation()) == Ok::<Move, HnfenError>(mov),
{
    mov.from.lemma_wf();
    mov.to.lemma_wf();
    lemma_position_text(mov.from.x(), mov.from.y());
    lemma_position_text(mov.to.x(), mov.to.y());
    let head = mov.from.notation();
    let tail = mov.to.notation();
    let text = mov.notation();
    let rest = text.skip(1);
    assert forall|i: int| 0 <= i < head.len() - 1 implies CharClass::Digit.has(
        #[trigger] rest[i],
    ) by {
        assert(rest[i] == head.skip(1)[i]);
    }
    assert(rest[head.len() - 1] == tail[0]);
    lemma_run_len_is(rest, CharClass::Digit, head.len() - 1);
    assert(text.take(head.len() as int) =~= head);
    assert(text.skip(head.len() as int) =~= tail);
}

/// The joined texts of one or more ranks hold no white space, and the
/// separator keeps apart exactly the texts of the ranks.
pub proof fn lemma_ranks_text(ranks: Seq<Rank>)
    requires
        ranks.len() >= 1,
    ensures
        ranks_text(ranks).len() > 0,
        forall|i: int|
            0 <= i < ranks_text(ranks).len() ==> is_rank_char(#[trigger] ranks_text(ranks)[i])
                || ranks_text(ranks)[i] == '/',
        fields(ranks_text(ranks)).len() == ranks.len(),
        forall|k: int|
            0 <= k < ranks.len() ==> #[trigger] fields(ranks_text(ranks))[k]
                == ranks[k].notation(),
    decreases ranks.len(),
{
    let text = ranks_text(ranks);
    let head = ranks[0].notation();
    lemma_rank_text_chars(ranks[0].fields@);
    if ranks.len() == 1 {
        assert forall|i: int| 0 <= i < text.len() implies CharClass::Field.has(
            #[trigger] text[i],
        ) by {
            assert(is_rank_char(text[i]));
        }
        lemma_run_len_is(text, CharClass::Field, text.len() as int);
    } else {
        let rest = ranks.skip(1);
        let tail = ranks_text(rest);
        lemma_ranks_text(rest);
        assert forall|i: int| 0 <= i < text.len() implies is_rank_char(#[trigger] text[i])
            || text[i] == '/' by {
            if i < head.len() {
                assert(text[i] == head[i]);
            } else if i > head.len() {
                assert(text[i] == tail[i - head.len() - 1]);
            }
        }
        assert forall|i: int| 0 <= i < head.len() implies CharClass::Field.has(
            #[trigger] text[i],
        ) by {
            assert(text[i] == head[i]);
            assert(is_rank_char(head[i]));
        }
        assert(text[head.len() as int] == '/');
        lemma_run_len_is(text, CharClass::Field, head.len() as int);
        assert(text.take(head.len() as int) =~= head);
        assert(text.skip(head.len() as int + 1) =~= tail);
        assert forall|k: int| 0 <= k < ranks.len() implies #[trigger] fields(text)[k]
            == ranks[k].notation() by {
            if k > 0 {
                assert(fields(text)[k] == fields(tail)[k - 1]);
                assert(rest[k - 1] == ranks[k]);
            }
        }
    }
}

/// The text of a board stands for that board.
pub proof fn lemma_board_round_trip(board: Board)
    ensures
        Board::denoted(board.notation()) == Ok::<Board, HnfenError>(board),
{
    let rows = board.ranks@;
    let layout = ranks_text(rows);
    let side = board.next.notation();
    let text = board.notation();
    lemma_ranks_text(rows);
    assert(text[0] == layout[0]);
    assert(is_rank_char(layout[0]) || layout[0] == '/');
    lemma_run_len_is(text, CharClass::Space, 0);
    assert(text.skip(0) =~= text);
    assert forall|i: int| 0 <= i < layout.len() implies CharClass::Word.has(#[trigger] text[i]) by {
        assert(text[i] == layout[i]);
        assert(is_rank_char(layout[i]) || layout[i] == '/');
    }
    assert(text[layout.len() as int] == ' ');
    lemma_run_len_is(text, CharClass::Word, layout.len() as int);
    assert(text.take(layout.len() as int) =~= layout);
    assert(first_word(text) == layout);
    let after = text.skip(layout.len() as int);
    assert(after == after_first_word(text));
    assert(after =~= seq![' '] + side);
    lemma_run_len_is(after, CharClass::Space, 1);
    let last = after.skip(1);
    assert(last =~= side);
    lemma_run_len_is(last, CharClass::Word, 1);
    assert(last.take(1) =~= side);
    assert(first_word(after) == side);
    let parts = fields(layout);
    assert forall|k: int| 0 <= k < 11 implies rank_denoted(#[trigger] parts[k]) == Ok::<
        Rank,
        HnfenError,
    >(rows[k]) by {
        lemma_rank_round_trip(rows[k]);
    }
    assert(all_ranks(parts));
    assert(board_denoted(text)->Ok_0.ranks =~= board.ranks);
}

} // verus!
