//! The pieces, the board they stand on, and the text form that every value
//! of the game has.
use vstd::prelude::*;

verus! {

/// The two sides. Black attacks and moves first; White defends the king.
#[derive(Debug, Clone, Copy, PartialEq, Eq, Hash, Structural)]
pub enum Player {
    /// Starts, is attacker
    Black,
    /// Second, is defender
    White,
}

/// What stands on a cell.
#[derive(Debug, Clone, Copy, PartialEq, Eq, Hash, Structural)]
pub enum Piece {
    /// A plain piece of one of the sides.
    Normal(Player),
    /// The king, whom the defenders lead to a corner.
    King,
}

/// One row of the board, from column `a` to column `k`.
#[derive(Debug, Clone, PartialEq, Eq, Hash)]
pub struct Rank {
    pub fields: [Option<Piece>; 11],
}

/// The eleven rows, top row first, and the side that moves next.
#[derive(Debug, Clone, PartialEq, Eq, Hash)]
pub struct Board {
    pub ranks: [Rank; 11],
    pub next: Player,
}

impl Player {
    /// The other side.
    pub open spec fn spec_opposite(&self) -> Player {
        match self {
            Player::Black => Player::White,
            Player::White => Player::Black,
        }
    }

    /// The other side.
    #[verifier::when_used_as_spec(spec_opposite)]
    pub fn opposite(&self) -> (p: Player)
        ensures
            p == self.spec_opposite(),
    {
        match self {
            Player::Black => Player::White,
            Player::White => Player::Black,
        }
    }
}

impl Piece {
    /// The side a piece fights for: the king is a defender.
    pub open spec fn spec_color(&self) -> Player {
        match self {
            Piece::Normal(c) => *c,
            Piece::King => Player::White,
        }
    }

    /// The side a piece fights for: the king is a defender.
    #[verifier::when_used_as_spec(spec_color)]
    pub fn color(&self) -> (c: Player)
        ensures
            c == self.spec_color(),
    {
        match self {
            Piece::Normal(c) => *c,
            Piece::King => Player::White,
        }
    }
}

impl Rank {
    /// The rank whose cell `x` holds `cells[x]`.
    pub open spec fn of(cells: Seq<Option<Piece>>) -> Rank {
        Rank {
            fields: [
                cells[0],
                cells[1],
                cells[2],
                cells[3],
                cells[4],
                cells[5],
                cells[6],
                cells[7],
                cells[8],
                cells[9],
                cells[10],
            ],
        }
    }

    /// A rank is given by its eleven cells.
    pub proof fn lemma_of(self)
        ensures
            Rank::of(self.fields@) == self,
    {
        assert(Rank::of(self.fields@).fields =~= self.fields);
    }
}

impl Default for Rank {
    /// The empty rank.
    fn default() -> (rank: Rank)
        ensures
            forall|x: int| 0 <= x < 11 ==> (#[trigger] rank.fields[x]) is None,
    {
        Rank { fields: [None, None, None, None, None, None, None, None, None, None, None] }
    }
}

/// Why a text stands for no value.
#[derive(Debug, Clone, Copy, PartialEq, Eq, Hash, Structural)]
pub enum HnfenError {
    /// A side or a piece is written with something other than `a`, `h`, `K`.
    UnrecognizedToken,
    /// A rank names a piece that does not exist, or does not fill eleven
    /// cells.
    MalformedRank,
    /// A board has not eleven ranks, or one of them is malformed.
    MalformedBoard,
    /// A move is not a position followed by a position.
    MalformedMove,
    /// A position is not a column `a`..`k` followed by a row `1`..`11`.
    MalformedPosition,
}

/// The text form of a value.
pub trait Hnfen: Sized {
    /// The text that stands for the value.
    spec fn notation(&self) -> Seq<char>;

    /// The value that `text` stands for, or why it stands for none.
    spec fn denoted(text: Seq<char>) -> Result<Self, HnfenError>;

    /// Writes the value as a text.
    fn as_hnfen(&self) -> (text: String)
        ensures
            text@ == self.notation(),
    ;

    /// Reads a value from a text.
    fn from_hnfen(hnfen: &str) -> (r: Result<Self, HnfenError>)
        ensures
            r == Self::denoted(hnfen@),
    ;
}

} // verus!
