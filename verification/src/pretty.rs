//! A picture of the board for the eye: one character for each cell, in a
//! frame.
use crate::notation::{piece_char, piece_str};
use crate::types::{Board, Rank};
use vstd::prelude::*;
use vstd::string::StringExecFns;

verus! {

/// The picture of a rank between the two sides of the frame.
pub open spec fn framed(rank: Rank) -> Seq<char> {
    seq!['║'] + rank.pretty_text() + seq!['║']
}

/// The framed pictures of the ranks, each on a line of its own.
pub open spec fn framed_rows(ranks: Seq<Rank>) -> Seq<char>
    decreases ranks.len(),
{
    if ranks.len() == 0 {
        Seq::empty()
    } else if ranks.len() == 1 {
        framed(ranks[0])
    } else {
        framed(ranks[0]) + seq!['\n'] + framed_rows(ranks.skip(1))
    }
}

impl Rank {
    /// The picture of the rank: the letter of the piece for each cell that
    /// holds one, and a blank for each empty cell.
    pub open spec fn pretty_text(self) -> Seq<char> {
        Seq::new(
            11,
            |x: int|
                match self.fields[x] {
                    Some(piece) => piece_char(piece),
                    None => ' ',
                },
        )
    }

    /// Draws the rank.
    pub fn pretty(&self) -> (text: String)
        ensures
            text@ == self.pretty_text(),
    {
        let mut buf = String::new();
        let mut x: usize = 0;
        while x < 11
            invariant
                x <= 11,
                buf@ == self.pretty_text().take(x as int),
            decreases 11 - x,
        {
            match self.fields[x] {
                Some(p) => buf.append(piece_str(p)),
                None => {
                    buf.append(" ");
                    proof {
                        reveal_strlit(" ");
                    }
                },
            }
            proof {
                assert(buf@ =~= self.pretty_text().take(x + 1));
            }
            x += 1;
        }
        proof {
            assert(self.pretty_text().take(11) =~= self.pretty_text());
        }
        buf
    }
}

impl Board {
    /// The picture of the board: the framed ranks between the top and the
    /// bottom of the frame.
    pub open spec fn pretty_text(self) -> Seq<char> {
        "╔═══════════╗\n"@ + framed_rows(self.ranks@) + "\n╚═══════════╝"@
    }

    /// Draws the board.
    pub fn pretty(&self) -> (text: String)
        ensures
            text@ == self.pretty_text(),
    {
        let ghost rows = self.ranks@;
        let mut pp = String::from_str("╔═══════════╗\n");
        let mut y: usize = 0;
        proof {
            assert(rows.skip(0) =~= rows);
        }
        while y < 11
            invariant
                y <= 11,
                rows == self.ranks@,
                pp@ + framed_rows(rows.skip(y as int)) == "╔═══════════╗\n"@ + framed_rows(rows),
            decreases 11 - y,
        {
            let ghost before = pp@;
            let ghost rest = rows.skip(y as int);
            let rank = self.ranks[y].pretty();
            pp.append("║");
            pp.append(rank.as_str());
            pp.append("║");
            proof {
                reveal_strlit("║");
                assert(rest[0] == rows[y as int]);
                assert(rest.skip(1) =~= rows.skip(y + 1));
                assert(pp@ =~= before + framed(rest[0]));
            }
            if y < 10 {
                pp.append("\n");
                proof {
                    reveal_strlit("\n");
                    assert(pp@ + framed_rows(rows.skip(y + 1)) =~= before + (framed(rest[0])
                        + seq!['\n'] + framed_rows(rest.skip(1))));
                }
            } else {
                proof {
                    assert(pp@ + framed_rows(rows.skip(y + 1)) =~= before + framed(rest[0]));
                }
            }
            y += 1;
        }
        proof {
            assert(rows.skip(11) =~= Seq::<Rank>::empty());
            assert(pp@ + Seq::<char>::empty() =~= pp@);
        }
        pp.append("\n╚═══════════╝");
        pp
    }
}

} // verus!
