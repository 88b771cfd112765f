//! What holds of every board: laws of the rules, proved from their
//! definitions.
use crate::moves::{corner, on_board, restricted, Direction, Move};
use crate::types::{Board, Piece, Player};
use vstd::prelude::*;

verus! {

/// A board without pieces has no legal move, whoever is to move.
pub proof fn lemma_empty_board_has_no_moves(board: Board, mov: Move)
    requires
        forall|x: int, y: int| on_board(x, y) ==> (#[trigger] board.at(x, y)) is None,
    ensures
        !board.allows(mov),
{
    if mov.wf() {
        mov.from.lemma_wf();
        assert(board.at(mov.from.x(), mov.from.y()) is None);
    }
}

/// The king has escaped exactly when the cell he stands on is a corner.
pub proof fn lemma_escaped_on_corner(board: Board, x: int, y: int)
    requires
        board.first_king_at(x, y),
    ensures
        board.escaped() == corner(x, y),
{
    if board.escaped() {
        let (i, j) = choose|i: int, j: int| #[trigger] board.first_king_at(i, j) && corner(i, j);
        assert(board.king_at(i, j));
        assert(board.king_at(x, y));
    }
}

/// A board without a king has no king that escaped.
pub proof fn lemma_no_king_no_escape(board: Board)
    requires
        forall|x: int, y: int| !board.king_at(x, y),
    ensures
        !board.escaped(),
{
}

/// A king is not captured while a cell next to him that is not restricted
/// is empty: to empty one such cell saves him, whatever the rest of the
/// board holds.
pub proof fn lemma_empty_neighbour_saves_king(board: Board, x: int, y: int, dir: Direction)
    requires
        on_board(dir.ahead(x, y, 1).0, dir.ahead(x, y, 1).1),
        !restricted(dir.ahead(x, y, 1).0, dir.ahead(x, y, 1).1),
    ensures
        !board.with_cell(dir.ahead(x, y, 1).0, dir.ahead(x, y, 1).1, None).king_captured(x, y),
{
    let (nx, ny) = dir.ahead(x, y, 1);
    board.lemma_with_cell(nx, ny, None);
    assert(board.with_cell(nx, ny, None).at(nx, ny) is None);
}

/// A captured king has on each of his four sides a cell of the board that
/// is restricted or held by the attackers: on the edge of the board, or
/// beside an empty cell or a defender off the restricted cells, he is safe.
pub proof fn lemma_king_needs_four_hostile_cells(board: Board, x: int, y: int, dir: Direction)
    requires
        board.king_captured(x, y),
    ensures
        board.hostile(dir.ahead(x, y, 1).0, dir.ahead(x, y, 1).1, Player::Black),
{
}

/// A move takes the king off the board only when the attackers make it and
/// the king, where he stands once the piece has moved, is captured on all
/// four sides.
pub proof fn lemma_king_leaves_only_captured(board: Board, mov: Move, x: int, y: int)
    requires
        mov.wf(),
        on_board(x, y),
        board.at(mov.from.x(), mov.from.y()) is Some,
        board.relocated(mov).at(x, y) == Some(Piece::King),
        board.applied(mov).at(x, y) != Some(Piece::King),
    ensures
        board.at(mov.from.x(), mov.from.y())->0.color() == Player::Black,
        board.relocated(mov).king_captured(x, y),
{
    board.lemma_applied(mov);
}

/// A piece that moves next to an enemy piece other than the king captures
/// it when the cell behind it is restricted or holds a piece of the mover's
/// side; the side to move changes with every move of a piece.
pub proof fn lemma_custodian_capture(board: Board, mov: Move, dir: Direction)
    requires
        mov.wf(),
        board.at(mov.from.x(), mov.from.y()) is Some,
        ({
            let mover = board.at(mov.from.x(), mov.from.y())->0.color();
            let from = (mov.from.x(), mov.from.y());
            let other = dir.ahead(mov.to.x(), mov.to.y(), 1);
            let behind = dir.ahead(mov.to.x(), mov.to.y(), 2);
            &&& on_board(other.0, other.1)
            &&& other != from
            &&& board.at(other.0, other.1) matches Some(Piece::Normal(side))
            &&& side != mover
            &&& on_board(behind.0, behind.1)
            &&& restricted(behind.0, behind.1) || (behind != from && board.held_by(
                behind.0,
                behind.1,
                mover,
            ))
        }),
    ensures
        board.applied(mov).at(
            dir.ahead(mov.to.x(), mov.to.y(), 1).0,
            dir.ahead(mov.to.x(), mov.to.y(), 1).1,
        ) is None,
        board.applied(mov).next == board.at(mov.from.x(), mov.from.y())->0.color().opposite(),
{
    mov.from.lemma_wf();
    mov.to.lemma_wf();
    board.lemma_applied(mov);
    board.lemma_relocated(mov);
    let moved = board.relocated(mov);
    let mover = board.at(mov.from.x(), mov.from.y())->0.color();
    let other = dir.ahead(mov.to.x(), mov.to.y(), 1);
    let behind = dir.ahead(mov.to.x(), mov.to.y(), 2);
    assert(moved.at(other.0, other.1) == board.at(other.0, other.1));
    if !restricted(behind.0, behind.1) {
        assert(moved.at(behind.0, behind.1) == board.at(behind.0, behind.1));
    }
    assert(moved.captures(mov.to.x(), mov.to.y(), dir, mover));
    assert(moved.takes(mov.to.x(), mov.to.y(), dir, mover, other.0, other.1));
}

/// A move from an empty cell changes nothing, not even the side to move.
pub proof fn lemma_move_from_empty_cell(board: Board, mov: Move)
    requires
        mov.wf(),
        board.at(mov.from.x(), mov.from.y()) is None,
    ensures
        board.applied(mov) == board,
{
}

/// Whether the king stands on one cell at most.
pub open spec fn at_most_one_king(board: Board) -> bool {
    forall|x: int, y: int, i: int, j: int|
        #[trigger] board.king_at(x, y) && #[trigger] board.king_at(i, j) ==> x == i && y == j
}

/// A move puts no second king on the board.
pub proof fn lemma_move_keeps_one_king(board: Board, mov: Move)
    requires
        mov.wf(),
        at_most_one_king(board),
    ensures
        at_most_one_king(board.applied(mov)),
{
    mov.from.lemma_wf();
    mov.to.lemma_wf();
    board.lemma_applied(mov);
    board.lemma_relocated(mov);
    let after = board.applied(mov);
    let fx = mov.from.x();
    let fy = mov.from.y();
    if board.at(fx, fy) is Some {
        assert forall|x: int, y: int, i: int, j: int| #[trigger]
            after.king_at(x, y) && #[trigger] after.king_at(i, j) implies x == i && y == j by {
            // where the king stood before he stands now on `(x, y)`
            let (px, py) = if x == mov.to.x() && y == mov.to.y() {
                (fx, fy)
            } else {
                (x, y)
            };
            // and where he stood before he stands now on `(i, j)`
            let (qx, qy) = if i == mov.to.x() && j == mov.to.y() {
                (fx, fy)
            } else {
                (i, j)
            };
            assert(board.king_at(px, py));
            assert(board.king_at(qx, qy));
        }
    }
}

} // verus!
