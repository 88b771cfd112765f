//! Positions, moves and directions, and the legal moves on a board.
use crate::types::{Board, Piece};
use vstd::prelude::*;

verus! {

/// Whether `(x, y)` names one of the 121 cells.
pub open spec fn on_board(x: int, y: int) -> bool {
    0 <= x < 11 && 0 <= y < 11
}

/// Whether `(x, y)` is one of the four corner cells.
pub open spec fn corner(x: int, y: int) -> bool {
    (x == 0 || x == 10) && (y == 0 || y == 10)
}

/// Whether `(x, y)` is the castle, the cell in the middle of the board.
pub open spec fn center(x: int, y: int) -> bool {
    x == 5 && y == 5
}

/// Whether `(x, y)` is a restricted cell: a corner or the castle.
pub open spec fn restricted(x: int, y: int) -> bool {
    corner(x, y) || center(x, y)
}

/// A cell of the board, written as a column letter `a`..`k` and a row number
/// `1`..`11`. Row 11 is the top row, so the cell with indices `(x, y)` has
/// the `x`-th letter and the row `11 - y`.
#[derive(Debug, Copy, Clone, Hash, PartialEq, Eq, Structural)]
pub struct Position {
    column: char,
    rank: u8,
}

impl Position {
    /// Every position names a cell of the board.
    #[verifier::type_invariant]
    pub closed spec fn wf(self) -> bool {
        'a' <= self.column <= 'k' && 1 <= self.rank <= 11
    }

    /// The column index, counted from the left.
    pub closed spec fn x(self) -> int {
        self.column as int - 'a' as int
    }

    /// The row index, counted from the top.
    pub closed spec fn y(self) -> int {
        11 - self.rank
    }

    /// The place of the cell when the cells are counted row by row, from
    /// the top left.
    pub open spec fn index(self) -> int {
        self.y() * 11 + self.x()
    }

    /// The position with the indices `(x, y)`.
    pub closed spec fn at(x: int, y: int) -> Position {
        Position { column: ('a' as int + x) as char, rank: (11 - y) as u8 }
    }

    /// The indices of the position with the indices `(x, y)` are `(x, y)`
    /// again, for every cell of the board.
    pub proof fn lemma_indices_round_trip(x: int, y: int)
        requires
            on_board(x, y),
        ensures
            Self::at(x, y).wf(),
            Self::at(x, y).x() == x,
            Self::at(x, y).y() == y,
    {
    }

    /// A well-formed position lies on the board and is given by its indices.
    pub proof fn lemma_wf(self)
        requires
            self.wf(),
        ensures
            on_board(self.x(), self.y()),
            Self::at(self.x(), self.y()) == self,
    {
    }

    /// The position with the given column letter and row number, if they
    /// name a cell.
    pub fn new(column: char, rank: u8) -> (r: Option<Position>)
        ensures
            r is Some <==> 'a' <= column <= 'k' && 1 <= rank <= 11,
            r matches Some(p) ==> p == Self::at(column as int - 'a' as int, 11 - rank) && p.wf(),
    {
        if 'a' <= column && column <= 'k' && 1 <= rank && rank <= 11 {
            Some(Position { column, rank })
        } else {
            None
        }
    }

    /// The column letter.
    pub fn column(&self) -> (c: char)
        ensures
            c as int == 'a' as int + self.x(),
            'a' <= c <= 'k',
    {
        proof {
            use_type_invariant(self);
        }
        self.column
    }

    /// The row number.
    pub fn rank(&self) -> (r: u8)
        ensures
            r == 11 - self.y(),
            1 <= r <= 11,
    {
        proof {
            use_type_invariant(self);
        }
        self.rank
    }

    /// The position of the cell in column `x`, counted from the left, and
    /// row `y`, counted from the top.
    pub fn from_indices(x: usize, y: usize) -> (p: Position)
        requires
            x < 11,
            y < 11,
        ensures
            p == Self::at(x as int, y as int),
            p.x() == x,
            p.y() == y,
            p.wf(),
    {
        Position { column: (97u8 + x as u8) as char, rank: 11 - y as u8 }
    }

    /// Returns the indices `(x, y)`.
    pub fn to_indices(&self) -> (r: (usize, usize))
        ensures
            r.0 == self.x(),
            r.1 == self.y(),
            on_board(r.0 as int, r.1 as int),
    {
        proof {
            use_type_invariant(self);
        }
        ((self.column as u8 - 97u8) as usize, (11 - self.rank) as usize)
    }
}

/// A move of the piece on `from` to the cell `to`.
#[derive(Debug, Clone, Hash, PartialEq, Eq)]
pub struct Move {
    pub from: Position,
    pub to: Position,
}

impl Move {
    /// Both ends of the move are cells of the board.
    pub open spec fn wf(self) -> bool {
        self.from.wf() && self.to.wf()
    }

    /// The direction in which the move goes.
    pub open spec fn heading(self) -> Direction {
        if self.to.x() < self.from.x() {
            Direction::Up
        } else if self.to.x() > self.from.x() {
            Direction::Down
        } else if self.to.y() < self.from.y() {
            Direction::Left
        } else {
            Direction::Right
        }
    }

    /// The number of steps that the move takes.
    pub open spec fn reach(self) -> int {
        let dx = self.to.x() - self.from.x();
        let dy = self.to.y() - self.from.y();
        (if dx < 0 {
            -dx
        } else {
            dx
        }) + (if dy < 0 {
            -dy
        } else {
            dy
        })
    }

    /// The place of the move in the order in which moves are generated: by
    /// the cell moved from, row by row, then by direction, then by reach.
    pub open spec fn order(self) -> int {
        (self.from.index() * 4 + self.heading().index()) * 10 + self.reach()
    }
}

/// Whether `v` lies between `a` and `b`, whichever of them is the smaller.
pub open spec fn between(a: int, v: int, b: int) -> bool {
    a <= v <= b || b <= v <= a
}

/// The four directions in which a piece slides. `Up` and `Down` change the
/// first index, `Left` and `Right` the second.
#[derive(Debug, Copy, Clone, PartialEq, Eq, Structural)]
pub enum Direction {
    Up,
    Down,
    Left,
    Right,
}

impl Direction {
    /// The change of the first index by one step.
    pub open spec fn dx(self) -> int {
        match self {
            Direction::Up => -1,
            Direction::Down => 1,
            Direction::Left => 0,
            Direction::Right => 0,
        }
    }

    /// The change of the second index by one step.
    pub open spec fn dy(self) -> int {
        match self {
            Direction::Up => 0,
            Direction::Down => 0,
            Direction::Left => -1,
            Direction::Right => 1,
        }
    }

    /// The cell `k` steps from `(x, y)` in this direction.
    pub open spec fn ahead(self, x: int, y: int, k: int) -> (int, int) {
        match self {
            Direction::Up => (x - k, y),
            Direction::Down => (x + k, y),
            Direction::Left => (x, y - k),
            Direction::Right => (x, y + k),
        }
    }

    /// The place of the direction in `card`.
    pub open spec fn index(self) -> int {
        match self {
            Direction::Up => 0,
            Direction::Down => 1,
            Direction::Left => 2,
            Direction::Right => 3,
        }
    }

    /// Difference in (x, y) tuple
    pub fn vector(&self, length: usize) -> (v: (isize, isize))
        requires
            length <= isize::MAX,
        ensures
            v.0 == length * self.dx(),
            v.1 == length * self.dy(),
    {
        let length = length as isize;
        match self {
            Direction::Up => (-length, 0),
            Direction::Down => (length, 0),
            Direction::Left => (0, -length),
            Direction::Right => (0, length),
        }
    }

    /// The four directions, in the order in which moves are generated.
    pub fn card() -> (dirs: [Direction; 4])
        ensures
            forall|i: int| 0 <= i < 4 ==> (#[trigger] dirs[i]).index() == i,
    {
        [Direction::Up, Direction::Down, Direction::Left, Direction::Right]
    }
}

/// Whether the cell is one of the four corners.
pub fn is_corner(x: usize, y: usize) -> (r: bool)
    ensures
        r == corner(x as int, y as int),
{
    (x == 0 || x == 10) && (y == 0 || y == 10)
}

/// Whether the cell is restricted: the castle in the middle of the board,
/// or a corner, which closes captures and bars pieces as the castle does.
pub fn is_castle(x: usize, y: usize) -> (r: bool)
    ensures
        r == restricted(x as int, y as int),
{
    is_corner(x, y) || (x == 5 && y == 5)
}

/// Whether `(x, y)` is a cell of the board.
pub fn in_board(x: isize, y: isize) -> (r: bool)
    ensures
        r == on_board(x as int, y as int),
{
    0 <= x && x < 11 && 0 <= y && y < 11
}

impl Board {
    /// Whether `mov` is a legal move for the side to move. It starts on a
    /// piece of that side, goes along a row or a column to another cell,
    /// finds every cell on its way and the cell it ends on empty, and does
    /// not end on a restricted cell unless the king makes it.
    pub open spec fn allows(self, mov: Move) -> bool {
        let fx = mov.from.x();
        let fy = mov.from.y();
        let tx = mov.to.x();
        let ty = mov.to.y();
        &&& mov.wf()
        &&& self.held_by(fx, fy, self.next)
        &&& (fx == tx) != (fy == ty)
        &&& forall|x: int, y: int|
            between(fx, x, tx) && between(fy, y, ty) && !(x == fx && y == fy) ==> (
            #[trigger] self.at(x, y)) is None
        &&& self.at(fx, fy) != Some(Piece::King) ==> !restricted(tx, ty)
    }

    /// Whether the `n` cells ahead of `(x, y)` in the direction `dir` are on
    /// the board and empty.
    pub open spec fn clear_ahead(self, x: int, y: int, dir: Direction, n: int) -> bool {
        forall|k: int|
            1 <= k <= n ==> {
                let cell = #[trigger] dir.ahead(x, y, k);
                on_board(cell.0, cell.1) && self.at(cell.0, cell.1) is None
            }
    }

    /// A legal move goes a number of steps in its direction over empty cells.
    pub proof fn lemma_allows(self, mov: Move)
        requires
            self.allows(mov),
        ensures
            1 <= mov.reach() <= 10,
            mov.heading().ahead(mov.from.x(), mov.from.y(), mov.reach()) == (
                mov.to.x(),
                mov.to.y(),
            ),
            self.clear_ahead(mov.from.x(), mov.from.y(), mov.heading(), mov.reach()),
    {
        mov.from.lemma_wf();
        mov.to.lemma_wf();
        let fx = mov.from.x();
        let fy = mov.from.y();
        let dir = mov.heading();
        assert forall|k: int| 1 <= k <= mov.reach() implies {
            let cell = #[trigger] dir.ahead(fx, fy, k);
            on_board(cell.0, cell.1) && self.at(cell.0, cell.1) is None
        } by {
            let (x, y) = dir.ahead(fx, fy, k);
            assert(between(fx, x, mov.to.x()) && between(fy, y, mov.to.y()));
            assert(self.at(x, y) is None);
        }
    }

    /// A piece of the side to move that goes `n` steps over empty cells, and
    /// ends off the restricted cells unless it is the king, moves legally.
    pub proof fn lemma_allows_slide(self, mov: Move, dir: Direction, n: int)
        requires
            mov.wf(),
            self.held_by(mov.from.x(), mov.from.y(), self.next),
            n >= 1,
            dir.ahead(mov.from.x(), mov.from.y(), n) == (mov.to.x(), mov.to.y()),
            self.clear_ahead(mov.from.x(), mov.from.y(), dir, n),
            self.at(mov.from.x(), mov.from.y()) != Some(Piece::King) ==> !restricted(
                mov.to.x(),
                mov.to.y(),
            ),
        ensures
            self.allows(mov),
            mov.heading() == dir,
            mov.reach() == n,
    {
        let fx = mov.from.x();
        let fy = mov.from.y();
        assert forall|x: int, y: int|
            between(fx, x, mov.to.x()) && between(fy, y, mov.to.y()) && !(x == fx && y
                == fy) implies (#[trigger] self.at(x, y)) is None by {
            let dx = x - fx;
            let dy = y - fy;
            let k = (if dx < 0 {
                -dx
            } else {
                dx
            }) + (if dy < 0 {
                -dy
            } else {
                dy
            });
            assert(dir.ahead(fx, fy, k) == (x, y));
        }
    }
}

/// Whether `moves` holds the legal moves on `board` that come no later than
/// `bound` in the order of generation, each once and in that order.
pub open spec fn lists_moves(board: Board, moves: Seq<Move>, bound: int) -> bool {
    &&& forall|i: int| 0 <= i < moves.len() ==> board.allows(#[trigger] moves[i])
    &&& forall|i: int| 0 <= i < moves.len() ==> (#[trigger] moves[i]).order() <= bound
    &&& forall|i: int, j: int|
        0 <= i < j < moves.len() ==> (#[trigger] moves[i]).order() < (#[trigger] moves[j]).order()
    &&& forall|mov: Move| #[trigger]
        board.allows(mov) && mov.order() <= bound ==> moves.contains(mov)
}

/// A legal move is known by its place in the order of generation: the cell
/// it starts from, its direction and its reach can be read off that place.
pub proof fn lemma_order(board: Board, mov: Move, from: Position, dir: Direction)
    requires
        board.allows(mov),
        from.wf(),
        (from.index() * 4 + dir.index()) * 10 < mov.order() <= (from.index() * 4 + dir.index())
            * 10 + 10,
    ensures
        mov.from == from,
        mov.heading() == dir,
        mov.reach() == mov.order() - (from.index() * 4 + dir.index()) * 10,
        mov.to == Position::at(
            dir.ahead(from.x(), from.y(), mov.reach()).0,
            dir.ahead(from.x(), from.y(), mov.reach()).1,
        ),
{
    board.lemma_allows(mov);
    mov.from.lemma_wf();
    mov.to.lemma_wf();
    from.lemma_wf();
    let a = mov.from.index() * 4 + mov.heading().index();
    let b = from.index() * 4 + dir.index();
    assert(a == b);
    assert(mov.from.index() == from.index());
    assert(mov.from.x() == from.x() && mov.from.y() == from.y());
}

/// Appends to `moves` the legal moves of the piece on `from` in the direction
/// `dir`, the nearest first.
fn slide(board: &Board, from: &Position, dir: Direction, moves: &mut Vec<Move>)
    requires
        board.held_by(from.x(), from.y(), board.next),
        lists_moves(*board, old(moves)@, (from.index() * 4 + dir.index()) * 10),
    ensures
        lists_moves(*board, final(moves)@, (from.index() * 4 + dir.index()) * 10 + 10),
{
    proof {
        use_type_invariant(from);
        from.lemma_wf();
    }
    let (curr_x, curr_y) = from.to_indices();
    let is_king = matches!(board.get(from), Some(Piece::King));
    let ghost base = (from.index() * 4 + dir.index()) * 10;
    let mut length: usize = 1;
    while length <= 10
        invariant_except_break
            lists_moves(*board, moves@, base + length - 1),
            board.clear_ahead(curr_x as int, curr_y as int, dir, length - 1),
        invariant
            1 <= length <= 11,
            from.wf(),
            curr_x == from.x(),
            curr_y == from.y(),
            on_board(curr_x as int, curr_y as int),
            board.held_by(from.x(), from.y(), board.next),
            is_king == (board.at(from.x(), from.y()) == Some(Piece::King)),
            base == (from.index() * 4 + dir.index()) * 10,
        ensures
            lists_moves(*board, moves@, base + 10),
        decreases 11 - length,
    {
        let (diff_x, diff_y) = dir.vector(length);
        let new_x = curr_x as isize + diff_x;
        let new_y = curr_y as isize + diff_y;
        assert(dir.ahead(curr_x as int, curr_y as int, length as int) == (
            new_x as int,
            new_y as int,
        ));
        if !in_board(new_x, new_y) {
            // Reached the edge of the board in this direction
            proof {
                assert forall|mov: Move| #[trigger]
                    board.allows(mov) && mov.order() <= base + 10 implies moves@.contains(mov) by {
                    if mov.order() > base + length - 1 {
                        lemma_order(*board, mov, *from, dir);
                        board.lemma_allows(mov);
                        let cell = dir.ahead(curr_x as int, curr_y as int, length as int);
                        assert(on_board(cell.0, cell.1));
                    }
                }
            }
            break ;
        }
        let (new_x, new_y) = (new_x as usize, new_y as usize);
        if !is_king && is_corner(new_x, new_y) {
            // Non-King cannot move onto corner
            proof {
                assert forall|mov: Move| #[trigger]
                    board.allows(mov) && mov.order() <= base + 10 implies moves@.contains(mov) by {
                    if mov.order() > base + length - 1 {
                        lemma_order(*board, mov, *from, dir);
                        board.lemma_allows(mov);
                        if mov.reach() > length {
                            let cell = dir.ahead(curr_x as int, curr_y as int, length + 1);
                            assert(on_board(cell.0, cell.1));
                        }
                    }
                }
            }
            break ;
        }
        let target = Position::from_indices(new_x, new_y);
        if board.get(&target).is_some() {
            // Something is in the way
            proof {
                assert forall|mov: Move| #[trigger]
                    board.allows(mov) && mov.order() <= base + 10 implies moves@.contains(mov) by {
                    if mov.order() > base + length - 1 {
                        lemma_order(*board, mov, *from, dir);
                        board.lemma_allows(mov);
                        let cell = dir.ahead(curr_x as int, curr_y as int, length as int);
                        assert(board.at(cell.0, cell.1) is None);
                    }
                }
            }
            break ;
        }
        proof {
            assert forall|k: int| 1 <= k <= length implies {
                let cell = #[trigger] dir.ahead(curr_x as int, curr_y as int, k);
                on_board(cell.0, cell.1) && board.at(cell.0, cell.1) is None
            } by {
                if k < length {
                    assert(board.clear_ahead(curr_x as int, curr_y as int, dir, length - 1));
                }
            }
        }
        if is_king || !(new_x == 5 && new_y == 5) {
            let mov = Move { from: *from, to: target };
            let ghost before = moves@;
            moves.push(mov);
            proof {
                board.lemma_allows_slide(mov, dir, length as int);
                assert(mov.order() == base + length);
                assert forall|other: Move| #[trigger]
                    board.allows(other) && other.order() <= base + length implies moves@.contains(
                    other,
                ) by {
                    if other.order() > base + length - 1 {
                        lemma_order(*board, other, *from, dir);
                        target.lemma_wf();
                        assert(other == mov);
                        assert(moves@[before.len() as int] == mov);
                    } else {
                        let i = choose|i: int| 0 <= i < before.len() && before[i] == other;
                        assert(moves@[i] == other);
                    }
                }
                assert forall|i: int, j: int| 0 <= i < j < moves@.len() implies (
                #[trigger] moves@[i]).order() < (#[trigger] moves@[j]).order() by {
                    assert(moves@[i] == before[i]);
                    if j < before.len() {
                        assert(moves@[j] == before[j]);
                    }
                }
                assert forall|i: int| 0 <= i < moves@.len() implies board.allows(
                    #[trigger] moves@[i],
                ) && moves@[i].order() <= base + length by {
                    if i < before.len() {
                        assert(moves@[i] == before[i]);
                    }
                }
            }
        } else {
            // Non-King cannot move onto center castle
            // But is allowed to move over!
            proof {
                assert forall|other: Move| #[trigger]
                    board.allows(other) && other.order() <= base + length implies moves@.contains(
                    other,
                ) by {
                    if other.order() > base + length - 1 {
                        lemma_order(*board, other, *from, dir);
                        other.to.lemma_wf();
                        target.lemma_wf();
                    }
                }
            }
        }
        length += 1;
    }
}

/// The legal moves of the side to move: for each of its pieces, row by row,
/// and each direction in turn, the moves along it from the nearest cell on.
/// A piece slides over empty cells until the edge of the board or another
/// piece stops it. Only the king may end on a corner or on the castle; the
/// other pieces stop before a corner and pass over the empty castle.
pub fn possible_moves(board: &Board) -> (moves: Vec<Move>)
    ensures
        forall|i: int| 0 <= i < moves.len() ==> board.allows(#[trigger] moves[i]),
        forall|mov: Move| #[trigger] board.allows(mov) ==> moves@.contains(mov),
        forall|i: int, j: int|
            0 <= i < j < moves.len() ==> (#[trigger] moves[i]).order() < (
            #[trigger] moves[j]).order(),
{
    let mut moves: Vec<Move> = Vec::new();
    let own_pieces = board.pieces(board.next);
    let dirs = Direction::card();
    let mut p: usize = 0;
    proof {
        assert forall|mov: Move| #[trigger] board.allows(mov) implies own_pieces@.contains(
            mov.from,
        ) by {
            mov.from.lemma_wf();
        }
    }
    while p < own_pieces.len()
        invariant
            p <= own_pieces.len(),
            forall|k: int| 0 <= k < 4 ==> (#[trigger] dirs[k]).index() == k,
            forall|i: int|
                0 <= i < own_pieces.len() ==> (#[trigger] own_pieces[i]).wf() && board.held_by(
                    own_pieces[i].x(),
                    own_pieces[i].y(),
                    board.next,
                ),
            forall|mov: Move| #[trigger] board.allows(mov) ==> own_pieces@.contains(mov.from),
            forall|i: int, j: int|
                0 <= i < j < own_pieces.len() ==> (#[trigger] own_pieces[i]).index() < (
                #[trigger] own_pieces[j]).index(),
            lists_moves(
                *board,
                moves@,
                if p < own_pieces.len() {
                    own_pieces[p as int].index() * 40
                } else {
                    4840int
                },
            ),
        decreases own_pieces.len() - p,
    {
        let own_location = own_pieces[p];
        let mut d: usize = 0;
        while d < 4
            invariant
                d <= 4,
                p < own_pieces.len(),
                own_location == own_pieces[p as int],
                own_location.wf(),
                board.held_by(own_location.x(), own_location.y(), board.next),
                forall|k: int| 0 <= k < 4 ==> (#[trigger] dirs[k]).index() == k,
                lists_moves(*board, moves@, (own_location.index() * 4 + d) * 10),
            decreases 4 - d,
        {
            assert(dirs[d as int].index() == d);
            slide(board, &own_location, dirs[d], &mut moves);
            d += 1;
        }
        proof {
            let bound = if p + 1 < own_pieces.len() {
                own_pieces[p + 1].index() * 40
            } else {
                4840int
            };
            own_location.lemma_wf();
            assert forall|mov: Move| #[trigger]
                board.allows(mov) && mov.order() <= bound implies moves@.contains(mov) by {
                if mov.order() > (own_location.index() * 4 + 4) * 10 {
                    board.lemma_allows(mov);
                    mov.from.lemma_wf();
                    let k = choose|k: int|
                        0 <= k < own_pieces.len() && own_pieces[k] == mov.from;
                    assert(mov.from.index() > own_location.index());
                    if k <= p {
                        if k < p {
                            assert(own_pieces[k].index() < own_pieces[p as int].index());
                        }
                    } else if k > p + 1 {
                        assert(own_pieces[p + 1].index() < own_pieces[k].index());
                    }
                }
            }
            assert forall|i: int| 0 <= i < moves.len() implies (#[trigger] moves[i]).order()
                <= bound by {
                if p + 1 < own_pieces.len() {
                    assert(own_pieces[p as int].index() < own_pieces[p + 1].index());
                }
            }
        }
        p += 1;
    }
    moves
}

} // verus!
