//! The board at work: what stands where, where the king is, what a move
//! captures, and the board after a move.
use crate::moves::{
    corner, in_board, is_castle, is_corner, on_board, restricted, Direction, Move, Position,
};
use crate::types::{Board, Piece, Player, Rank};
use vstd::array::spec_array_update;
use vstd::prelude::*;

verus! {

impl Board {
    /// What stands on the cell `(x, y)`.
    pub open spec fn at(self, x: int, y: int) -> Option<Piece> {
        self.ranks[y].fields[x]
    }

    /// The board whose cell `(x, y)` holds `cells(x, y)`, with `next` to move.
    #[verifier::opaque]
    pub open spec fn of(cells: spec_fn(int, int) -> Option<Piece>, next: Player) -> Board {
        Board {
            ranks: [
                Rank::of(Seq::new(11, |x: int| cells(x, 0))),
                Rank::of(Seq::new(11, |x: int| cells(x, 1))),
                Rank::of(Seq::new(11, |x: int| cells(x, 2))),
                Rank::of(Seq::new(11, |x: int| cells(x, 3))),
                Rank::of(Seq::new(11, |x: int| cells(x, 4))),
                Rank::of(Seq::new(11, |x: int| cells(x, 5))),
                Rank::of(Seq::new(11, |x: int| cells(x, 6))),
                Rank::of(Seq::new(11, |x: int| cells(x, 7))),
                Rank::of(Seq::new(11, |x: int| cells(x, 8))),
                Rank::of(Seq::new(11, |x: int| cells(x, 9))),
                Rank::of(Seq::new(11, |x: int| cells(x, 10))),
            ],
            next,
        }
    }

    /// Two boards with the same cells and the same side to move are equal.
    pub proof fn lemma_ext_equal(self, other: Board)
        requires
            self.next == other.next,
            forall|x: int, y: int| on_board(x, y) ==> #[trigger] self.at(x, y) == other.at(x, y),
        ensures
            self == other,
    {
        assert forall|y: int| 0 <= y < 11 implies self.ranks[y] == other.ranks[y] by {
            assert forall|x: int| 0 <= x < 11 implies self.ranks[y].fields[x]
                == other.ranks[y].fields[x] by {
                assert(self.at(x, y) == other.at(x, y));
            }
            assert(self.ranks[y].fields =~= other.ranks[y].fields);
        }
        assert(self.ranks =~= other.ranks);
    }

    /// The board with `piece` on the cell `(x, y)` and all else unchanged.
    pub open spec fn with_cell(self, x: int, y: int, piece: Option<Piece>) -> Board {
        Board {
            ranks: spec_array_update(
                self.ranks,
                y,
                Rank { fields: spec_array_update(self.ranks[y].fields, x, piece) },
            ),
            next: self.next,
        }
    }

    /// `with_cell` changes the one cell it names.
    pub proof fn lemma_with_cell(self, x: int, y: int, piece: Option<Piece>)
        requires
            on_board(x, y),
        ensures
            self.with_cell(x, y, piece).next == self.next,
            forall|i: int, j: int|
                on_board(i, j) ==> #[trigger] self.with_cell(x, y, piece).at(i, j) == if i == x
                    && j == y {
                    piece
                } else {
                    self.at(i, j)
                },
    {
    }

    /// Whether a piece of `side` stands on the cell `(x, y)`.
    pub open spec fn held_by(self, x: int, y: int, side: Player) -> bool {
        on_board(x, y) && (self.at(x, y) matches Some(p) && p.color() == side)
    }

    /// Whether the cell `(x, y)` closes a capture made by `side`: it is on
    /// the board and either restricted or held by `side`.
    pub open spec fn hostile(self, x: int, y: int, side: Player) -> bool {
        on_board(x, y) && (restricted(x, y) || self.held_by(x, y, side))
    }

    /// Whether a king on `(x, y)` is captured: each of the four cells next to
    /// it is on the board and restricted or held by the attackers.
    pub open spec fn king_captured(self, x: int, y: int) -> bool {
        &&& self.hostile(x - 1, y, Player::Black)
        &&& self.hostile(x + 1, y, Player::Black)
        &&& self.hostile(x, y - 1, Player::Black)
        &&& self.hostile(x, y + 1, Player::Black)
    }

    /// Whether a piece of `mover` that has just arrived on `(tx, ty)` captures
    /// its neighbour in the direction `dir`. A plain enemy piece falls when
    /// the cell behind it is hostile to it; the king falls to the attackers
    /// alone, and only when he is captured on all four sides.
    pub open spec fn captures(self, tx: int, ty: int, dir: Direction, mover: Player) -> bool {
        let nx = tx + dir.dx();
        let ny = ty + dir.dy();
        on_board(nx, ny) && match self.at(nx, ny) {
            Some(Piece::Normal(c)) => c != mover && self.hostile(
                nx + dir.dx(),
                ny + dir.dy(),
                mover,
            ),
            Some(Piece::King) => mover == Player::Black && self.king_captured(nx, ny),
            None => false,
        }
    }

    /// Whether `(x, y)` is the neighbour of `(tx, ty)` in the direction `dir`
    /// and is captured from there.
    pub open spec fn takes(
        self,
        tx: int,
        ty: int,
        dir: Direction,
        mover: Player,
        x: int,
        y: int,
    ) -> bool {
        x == tx + dir.dx() && y == ty + dir.dy() && self.captures(tx, ty, dir, mover)
    }

    /// Whether the piece on `(x, y)` is captured by a piece of `mover` that
    /// has just arrived on `(tx, ty)`.
    pub open spec fn taken(self, tx: int, ty: int, mover: Player, x: int, y: int) -> bool {
        ||| self.takes(tx, ty, Direction::Up, mover, x, y)
        ||| self.takes(tx, ty, Direction::Down, mover, x, y)
        ||| self.takes(tx, ty, Direction::Left, mover, x, y)
        ||| self.takes(tx, ty, Direction::Right, mover, x, y)
    }

    /// As `taken`, for the first `n` directions only.
    spec fn taken_before(self, tx: int, ty: int, mover: Player, x: int, y: int, n: int) -> bool {
        ||| 0 < n && self.takes(tx, ty, Direction::Up, mover, x, y)
        ||| 1 < n && self.takes(tx, ty, Direction::Down, mover, x, y)
        ||| 2 < n && self.takes(tx, ty, Direction::Left, mover, x, y)
        ||| 3 < n && self.takes(tx, ty, Direction::Right, mover, x, y)
    }

    /// The board after the piece on `mov.from`, if there is one, has been set
    /// down on `mov.to`.
    pub open spec fn relocated(self, mov: Move) -> Board {
        self.with_cell(mov.from.x(), mov.from.y(), None).with_cell(
            mov.to.x(),
            mov.to.y(),
            self.at(mov.from.x(), mov.from.y()),
        )
    }

    /// `relocated` empties `mov.from` and fills `mov.to`.
    pub proof fn lemma_relocated(self, mov: Move)
        requires
            mov.wf(),
        ensures
            self.relocated(mov).next == self.next,
            forall|x: int, y: int|
                on_board(x, y) ==> #[trigger] self.relocated(mov).at(x, y) == if x == mov.to.x()
                    && y == mov.to.y() {
                    self.at(mov.from.x(), mov.from.y())
                } else if x == mov.from.x() && y == mov.from.y() {
                    None
                } else {
                    self.at(x, y)
                },
    {
        let lifted = self.with_cell(mov.from.x(), mov.from.y(), None);
        mov.from.lemma_wf();
        mov.to.lemma_wf();
        self.lemma_with_cell(mov.from.x(), mov.from.y(), None);
        lifted.lemma_with_cell(mov.to.x(), mov.to.y(), self.at(mov.from.x(), mov.from.y()));
    }

    /// The board after `mov`. With no piece on `mov.from` nothing changes.
    /// Otherwise the piece is set down on `mov.to`, every neighbour that it
    /// captures there is taken off, and the other side is to move.
    pub open spec fn applied(self, mov: Move) -> Board {
        match self.at(mov.from.x(), mov.from.y()) {
            None => self,
            Some(piece) => {
                let moved = self.relocated(mov);
                Self::of(
                    |x: int, y: int|
                        if moved.taken(mov.to.x(), mov.to.y(), piece.color(), x, y) {
                            None
                        } else {
                            moved.at(x, y)
                        },
                    piece.color().opposite(),
                )
            },
        }
    }

    /// `applied` cell by cell.
    pub proof fn lemma_applied(self, mov: Move)
        requires
            mov.wf(),
        ensures
            self.at(mov.from.x(), mov.from.y()) is None ==> self.applied(mov) == self,
            self.at(mov.from.x(), mov.from.y()) matches Some(piece) ==> {
                &&& self.applied(mov).next == piece.color().opposite()
                &&& forall|x: int, y: int|
                    on_board(x, y) ==> #[trigger] self.applied(mov).at(x, y) == if self.relocated(
                        mov,
                    ).taken(mov.to.x(), mov.to.y(), piece.color(), x, y) {
                        None
                    } else {
                        self.relocated(mov).at(x, y)
                    }
            },
    {
        reveal(Board::of);
    }

    /// Whether the king stands on the cell `(x, y)`.
    pub open spec fn king_at(self, x: int, y: int) -> bool {
        on_board(x, y) && self.at(x, y) == Some(Piece::King)
    }

    /// Whether the king stands on `(x, y)` and on no cell before it, the
    /// cells counted row by row.
    pub open spec fn first_king_at(self, x: int, y: int) -> bool {
        &&& self.king_at(x, y)
        &&& forall|i: int, j: int| #[trigger] self.king_at(i, j) ==> y * 11 + x <= j * 11 + i
    }

    /// Whether the king has reached a corner.
    pub open spec fn escaped(self) -> bool {
        exists|x: int, y: int| #[trigger] self.first_king_at(x, y) && corner(x, y)
    }

    /// What stands on `pos`.
    pub fn get(&self, pos: &Position) -> (r: Option<Piece>)
        ensures
            r == self.at(pos.x(), pos.y()),
    {
        let (x, y) = pos.to_indices();
        self.ranks[y].fields[x]
    }

    /// Puts `piece` on `pos`, or empties `pos`.
    pub fn set(&mut self, pos: &Position, piece: &Option<Piece>)
        ensures
            *final(self) == old(self).with_cell(pos.x(), pos.y(), *piece),
    {
        let (x, y) = pos.to_indices();
        self.ranks[y].fields[x] = *piece;
        proof {
            old(self).lemma_with_cell(pos.x(), pos.y(), *piece);
            self.lemma_ext_equal(old(self).with_cell(pos.x(), pos.y(), *piece));
        }
    }

    /// The cells that hold a piece of `color`, row by row; the king counts
    /// as a piece of the defenders.
    pub fn pieces(&self, color: Player) -> (pos: Vec<Position>)
        ensures
            forall|i: int|
                0 <= i < pos.len() ==> (#[trigger] pos[i]).wf() && self.held_by(
                    pos[i].x(),
                    pos[i].y(),
                    color,
                ),
            forall|x: int, y: int| #[trigger]
                self.held_by(x, y, color) ==> pos@.contains(Position::at(x, y)),
            forall|i: int, j: int|
                0 <= i < j < pos.len() ==> (#[trigger] pos[i]).index() < (#[trigger] pos[j]).index(),
    {
        let mut pos: Vec<Position> = Vec::new();
        let mut y: usize = 0;
        while y < 11
            invariant
                y <= 11,
                forall|i: int|
                    0 <= i < pos.len() ==> (#[trigger] pos[i]).wf() && self.held_by(
                        pos[i].x(),
                        pos[i].y(),
                        color,
                    ) && pos[i].index() < y * 11,
                forall|i: int, j: int| #[trigger]
                    self.held_by(i, j, color) && j < y ==> pos@.contains(Position::at(i, j)),
                forall|i: int, j: int|
                    0 <= i < j < pos.len() ==> (#[trigger] pos[i]).index() < (
                    #[trigger] pos[j]).index(),
            decreases 11 - y,
        {
            let mut x: usize = 0;
            while x < 11
                invariant
                    x <= 11,
                    y < 11,
                    forall|i: int|
                        0 <= i < pos.len() ==> (#[trigger] pos[i]).wf() && self.held_by(
                            pos[i].x(),
                            pos[i].y(),
                            color,
                        ) && pos[i].index() < y * 11 + x,
                    forall|i: int, j: int| #[trigger]
                        self.held_by(i, j, color) && (j < y || (j == y && i < x))
                            ==> pos@.contains(Position::at(i, j)),
                    forall|i: int, j: int|
                        0 <= i < j < pos.len() ==> (#[trigger] pos[i]).index() < (
                        #[trigger] pos[j]).index(),
                decreases 11 - x,
            {
                let held = match self.ranks[y].fields[x] {
                    Some(piece) => piece.color() == color,
                    None => false,
                };
                if held {
                    let here = Position::from_indices(x, y);
                    let ghost before = pos@;
                    pos.push(here);
                    proof {
                        assert forall|i: int, j: int| #[trigger]
                            self.held_by(i, j, color) && (j < y || (j == y && i < x + 1))
                            implies pos@.contains(Position::at(i, j)) by {
                            if j == y && i == x {
                                assert(pos@[before.len() as int] == here);
                            } else {
                                let k = choose|k: int|
                                    0 <= k < before.len() && before[k] == Position::at(i, j);
                                assert(pos@[k] == before[k]);
                            }
                        }
                    }
                }
                x += 1;
            }
            y += 1;
        }
        pos
    }

    /// The cell of the king: the first one, row by row, on which he stands.
    pub fn king(&self) -> (r: Option<Position>)
        ensures
            match r {
                Some(pos) => pos.wf() && self.first_king_at(pos.x(), pos.y()),
                None => forall|x: int, y: int| !self.king_at(x, y),
            },
    {
        let mut y: usize = 0;
        while y < 11
            invariant
                y <= 11,
                forall|i: int, j: int| #[trigger] self.king_at(i, j) ==> j >= y,
            decreases 11 - y,
        {
            let mut x: usize = 0;
            while x < 11
                invariant
                    x <= 11,
                    y < 11,
                    forall|i: int, j: int| #[trigger]
                        self.king_at(i, j) ==> j > y || (j == y && i >= x),
                decreases 11 - x,
            {
                if let Some(Piece::King) = self.ranks[y].fields[x] {
                    return Some(Position::from_indices(x, y));
                }
                x += 1;
            }
            y += 1;
        }
        None
    }

    /// Whether the king stands on a corner.
    pub fn king_escaped(&self) -> (r: bool)
        ensures
            r == self.escaped(),
    {
        if let Some(pos) = self.king() {
            let (x, y) = pos.to_indices();
            proof {
                assert forall|i: int, j: int| #[trigger] self.first_king_at(i, j) implies i == x
                    && j == y by {
                    assert(self.king_at(i, j));
                    assert(self.king_at(x as int, y as int));
                }
            }
            is_corner(x, y)
        } else {
            false
        }
    }

    /// Whether the cell `(x, y)`, which may lie off the board, closes a
    /// capture made by `side`.
    pub fn is_hostile(&self, x: isize, y: isize, side: Player) -> (r: bool)
        ensures
            r == self.hostile(x as int, y as int, side),
    {
        if !in_board(x, y) {
            return false;
        }
        let (x, y) = (x as usize, y as usize);
        if is_castle(x, y) {
            return true;
        }
        match self.get(&Position::from_indices(x, y)) {
            Some(p) => p.color() == side,
            None => false,
        }
    }

    /// Returns true if a king at position pos *would* be captured
    pub fn is_king_capture(&self, pos: &Position) -> (r: bool)
        ensures
            r == self.king_captured(pos.x(), pos.y()),
    {
        let (x, y) = pos.to_indices();
        let dirs = Direction::card();
        let mut i: usize = 0;
        while i < 4
            invariant
                i <= 4,
                x == pos.x(),
                y == pos.y(),
                on_board(x as int, y as int),
                forall|k: int| 0 <= k < 4 ==> (#[trigger] dirs[k]).index() == k,
                forall|k: int|
                    0 <= k < i ==> self.hostile(
                        x + (#[trigger] dirs[k]).dx(),
                        y + dirs[k].dy(),
                        Player::Black,
                    ),
            decreases 4 - i,
        {
            let dir_diff = dirs[i].vector(1);
            assert(dirs[i as int].index() == i);
            if !self.is_hostile(x as isize + dir_diff.0, y as isize + dir_diff.1, Player::Black) {
                return false;  // not captured
            }
            i += 1;
        }
        proof {
            assert(dirs[0].index() == 0);
            assert(dirs[1].index() == 1);
            assert(dirs[2].index() == 2);
            assert(dirs[3].index() == 3);
        }
        true
    }

    /// Whether a piece of `mover` that has just arrived on `pos` captures its
    /// neighbour in the direction `dir`.
    pub fn is_capture(&self, pos: &Position, dir: Direction, mover: Player) -> (r: bool)
        ensures
            r == self.captures(pos.x(), pos.y(), dir, mover),
    {
        let (x, y) = pos.to_indices();
        let dir_diff = dir.vector(1);
        let other_place = (x as isize + dir_diff.0, y as isize + dir_diff.1);
        if !in_board(other_place.0, other_place.1) {
            return false;
        }
        let other = Position::from_indices(other_place.0 as usize, other_place.1 as usize);
        match self.get(&other) {
            Some(Piece::Normal(c)) => c != mover && self.is_hostile(
                other_place.0 + dir_diff.0,
                other_place.1 + dir_diff.1,
                mover,
            ),
            Some(Piece::King) => mover == Player::Black && self.is_king_capture(&other),
            None => false,
        }
    }

    /// A capture is judged by the cells in line with it and around the
    /// king, none of which is another neighbour of the cell moved to: a board
    /// that differs from `self` on such neighbours alone judges it alike.
    proof fn lemma_captures_frame(
        self,
        other: Board,
        tx: int,
        ty: int,
        dir: Direction,
        mover: Player,
    )
        requires
            on_board(tx, ty),
            forall|x: int, y: int|
                on_board(x, y) && !(x == tx + 1 && y == ty && dir != Direction::Down) && !(x == tx
                    - 1 && y == ty && dir != Direction::Up) && !(x == tx && y == ty + 1 && dir
                    != Direction::Right) && !(x == tx && y == ty - 1 && dir != Direction::Left)
                    ==> #[trigger] self.at(x, y) == other.at(x, y),
        ensures
            self.captures(tx, ty, dir, mover) == other.captures(tx, ty, dir, mover),
    {
        let nx = tx + dir.dx();
        let ny = ty + dir.dy();
        if on_board(nx, ny) {
            assert(self.at(nx, ny) == other.at(nx, ny));
            assert(on_board(nx + dir.dx(), ny + dir.dy()) ==> self.at(nx + dir.dx(), ny + dir.dy())
                == other.at(nx + dir.dx(), ny + dir.dy()));
            assert(on_board(nx + 1, ny) ==> self.at(nx + 1, ny) == other.at(nx + 1, ny));
            assert(on_board(nx - 1, ny) ==> self.at(nx - 1, ny) == other.at(nx - 1, ny));
            assert(on_board(nx, ny + 1) ==> self.at(nx, ny + 1) == other.at(nx, ny + 1));
            assert(on_board(nx, ny - 1) ==> self.at(nx, ny - 1) == other.at(nx, ny - 1));
        }
    }

    /// Plays `mov`: the piece on `mov.from` goes to `mov.to`, the pieces it
    /// captures there leave the board, and the other side is to move. With
    /// no piece on `mov.from` the board stays as it is.
    pub fn apply(&mut self, mov: &Move)
        ensures
            *final(self) == old(self).applied(*mov),
    {
        proof {
            use_type_invariant(&mov.from);
            use_type_invariant(&mov.to);
        }
        let (x, y) = mov.from.to_indices();
        let piece = if let Some(p) = self.ranks[y].fields[x] {
            p
        } else {
            // Probably a nop move
            proof {
                old(self).lemma_applied(*mov);
            }
            return ;
        };
        let move_color = piece.color();
        self.ranks[y].fields[x] = None;
        let (x, y) = mov.to.to_indices();
        self.ranks[y].fields[x] = Some(piece);
        let ghost moved = *self;
        proof {
            old(self).lemma_relocated(*mov);
            moved.lemma_ext_equal(old(self).relocated(*mov));
        }
        let dirs = Direction::card();
        let mut i: usize = 0;
        while i < 4
            invariant
                i <= 4,
                x == mov.to.x(),
                y == mov.to.y(),
                on_board(x as int, y as int),
                forall|k: int| 0 <= k < 4 ==> (#[trigger] dirs[k]).index() == k,
                self.next == moved.next,
                forall|cx: int, cy: int|
                    on_board(cx, cy) ==> #[trigger] self.at(cx, cy) == if moved.taken_before(
                        x as int,
                        y as int,
                        move_color,
                        cx,
                        cy,
                        i as int,
                    ) {
                        None
                    } else {
                        moved.at(cx, cy)
                    },
            decreases 4 - i,
        {
            let dir = dirs[i];
            assert(dirs[i as int].index() == i);
            let captured = self.is_capture(&mov.to, dir, move_color);
            proof {
                self.lemma_captures_frame(moved, x as int, y as int, dir, move_color);
            }
            let ghost before = *self;
            if captured {
                let dir_diff = dir.vector(1);
                let other_x = (x as isize + dir_diff.0) as usize;
                let other_y = (y as isize + dir_diff.1) as usize;
                self.ranks[other_y].fields[other_x] = None;
            }
            proof {
                let tx = x as int;
                let ty = y as int;
                assert forall|cx: int, cy: int| on_board(cx, cy) implies #[trigger] self.at(cx, cy)
                    == if moved.taken_before(tx, ty, move_color, cx, cy, i + 1) {
                    None
                } else {
                    moved.at(cx, cy)
                } by {
                    // what stood there before this direction was judged
                    assert(before.at(cx, cy) == if moved.taken_before(
                        tx,
                        ty,
                        move_color,
                        cx,
                        cy,
                        i as int,
                    ) {
                        None
                    } else {
                        moved.at(cx, cy)
                    });
                    assert(moved.taken_before(tx, ty, move_color, cx, cy, i + 1)
                        == (moved.taken_before(tx, ty, move_color, cx, cy, i as int)
                        || moved.takes(tx, ty, dir, move_color, cx, cy)));
                }
            }
            i += 1;
        }
        self.next = move_color.opposite();
        proof {
            old(self).lemma_applied(*mov);
            self.lemma_ext_equal(old(self).applied(*mov));
        }
    }
}

} // verus!
