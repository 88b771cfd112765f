//! The text form of sides, pieces, ranks, boards, positions and moves.
use crate::text::{
    all_digits, chars_of, decimal, decimal_at, decimal_value, is_digit, lemma_run_len, push_decimal,
    run_end, run_len, CharClass,
};
use crate::moves::{Move, Position};
use crate::types::{Board, Hnfen, HnfenError, Piece, Player, Rank};
use vstd::prelude::*;
use vstd::string::StringExecFns;

verus! {

/// The letter of a side: `a` for the attackers, `h` for the defenders.
pub open spec fn player_char(player: Player) -> char {
    match player {
        Player::Black => 'a',
        Player::White => 'h',
    }
}

/// The letter of a piece: that of its side, or `K` for the king.
pub open spec fn piece_char(piece: Piece) -> char {
    match piece {
        Piece::Normal(side) => player_char(side),
        Piece::King => 'K',
    }
}

/// The side that the letter `c` stands for.
pub open spec fn player_of_char(c: char) -> Option<Player> {
    if c == 'a' {
        Some(Player::Black)
    } else if c == 'h' {
        Some(Player::White)
    } else {
        None
    }
}

/// The piece that the letter `c` stands for.
pub open spec fn piece_of_char(c: char) -> Option<Piece> {
    if c == 'K' {
        Some(Piece::King)
    } else {
        match player_of_char(c) {
            Some(side) => Some(Piece::Normal(side)),
            None => None,
        }
    }
}

/// The side that the letter `c` stands for.
pub fn player_from_char(c: char) -> (r: Option<Player>)
    ensures
        r == player_of_char(c),
{
    if c == 'a' {
        Some(Player::Black)
    } else if c == 'h' {
        Some(Player::White)
    } else {
        None
    }
}

/// The piece that the letter `c` stands for.
pub fn piece_from_char(c: char) -> (r: Option<Piece>)
    ensures
        r == piece_of_char(c),
{
    if c == 'K' {
        Some(Piece::King)
    } else {
        match player_from_char(c) {
            Some(side) => Some(Piece::Normal(side)),
            None => None,
        }
    }
}

/// The letter of a side, as a text.
pub fn player_str(player: Player) -> (s: &'static str)
    ensures
        s@ == seq![player_char(player)],
{
    proof {
        reveal_strlit("a");
        reveal_strlit("h");
    }
    let s = match player {
        Player::Black => "a",
        Player::White => "h",
    };
    assert(s@ =~= seq![player_char(player)]);
    s
}

/// The letter of a piece, as a text.
pub fn piece_str(piece: Piece) -> (s: &'static str)
    ensures
        s@ == seq![piece_char(piece)],
{
    proof {
        reveal_strlit("K");
    }
    let s = match piece {
        Piece::Normal(side) => player_str(side),
        Piece::King => "K",
    };
    assert(s@ =~= seq![piece_char(piece)]);
    s
}

impl Hnfen for Player {
    open spec fn notation(&self) -> Seq<char> {
        seq![player_char(*self)]
    }

    open spec fn denoted(text: Seq<char>) -> Result<Player, HnfenError> {
        if text.len() == 1 && player_of_char(text[0]) is Some {
            Ok(player_of_char(text[0])->0)
        } else {
            Err(HnfenError::UnrecognizedToken)
        }
    }

    fn as_hnfen(&self) -> (text: String) {
        String::from_str(player_str(*self))
    }

    fn from_hnfen(hnfen: &str) -> (r: Result<Player, HnfenError>) {
        let chars = chars_of(hnfen);
        if chars.len() != 1 {
            return Err(HnfenError::UnrecognizedToken);
        }
        match player_from_char(chars[0]) {
            Some(player) => Ok(player),
            None => Err(HnfenError::UnrecognizedToken),
        }
    }
}

impl Hnfen for Piece {
    open spec fn notation(&self) -> Seq<char> {
        seq![piece_char(*self)]
    }

    open spec fn denoted(text: Seq<char>) -> Result<Piece, HnfenError> {
        if text.len() == 1 && piece_of_char(text[0]) is Some {
            Ok(piece_of_char(text[0])->0)
        } else {
            Err(HnfenError::UnrecognizedToken)
        }
    }

    fn as_hnfen(&self) -> (text: String) {
        String::from_str(piece_str(*self))
    }

    fn from_hnfen(hnfen: &str) -> (r: Result<Piece, HnfenError>) {
        let chars = chars_of(hnfen);
        if chars.len() != 1 {
            return Err(HnfenError::UnrecognizedToken);
        }
        match piece_from_char(chars[0]) {
            Some(piece) => Ok(piece),
            None => Err(HnfenError::UnrecognizedToken),
        }
    }
}

/// The number of empty cells at the head of `cells`.
pub open spec fn empty_run(cells: Seq<Option<Piece>>) -> nat
    decreases cells.len(),
{
    if cells.len() > 0 && cells[0] is None {
        1 + empty_run(cells.skip(1))
    } else {
        0
    }
}

/// The run of empty cells at the head of `cells` lies within `cells`,
/// holds empty cells alone, and ends where `cells` ends or before a piece.
pub proof fn lemma_empty_run(cells: Seq<Option<Piece>>)
    ensures
        empty_run(cells) <= cells.len(),
        cells.len() > 0 && cells[0] is None ==> empty_run(cells) >= 1,
        forall|i: int| 0 <= i < empty_run(cells) ==> (#[trigger] cells[i]) is None,
        empty_run(cells) < cells.len() ==> cells[empty_run(cells) as int] is Some,
    decreases cells.len(),
{
    if cells.len() > 0 && cells[0] is None {
        let rest = cells.skip(1);
        lemma_empty_run(rest);
        assert forall|i: int| 0 <= i < empty_run(cells) implies (#[trigger] cells[i]) is None by {
            if i > 0 {
                assert(cells[i] == rest[i - 1]);
            }
        }
        if empty_run(cells) < cells.len() {
            assert(cells[empty_run(cells) as int] == rest[empty_run(rest) as int]);
        }
    }
}

/// A prefix of `n` empty cells that ends where `cells` ends or before a
/// piece is the run of empty cells at the head of `cells`.
pub proof fn lemma_empty_run_is(cells: Seq<Option<Piece>>, n: int)
    requires
        0 <= n <= cells.len(),
        forall|i: int| 0 <= i < n ==> (#[trigger] cells[i]) is None,
        n < cells.len() ==> cells[n] is Some,
    ensures
        empty_run(cells) == n,
    decreases n,
{
    if n > 0 {
        let rest = cells.skip(1);
        assert forall|i: int| 0 <= i < n - 1 implies (#[trigger] rest[i]) is None by {
            assert(rest[i] == cells[i + 1]);
        }
        lemma_empty_run_is(rest, n - 1);
    }
}

/// `n` empty cells.
pub open spec fn empties(n: nat) -> Seq<Option<Piece>> {
    Seq::new(n, |i: int| None)
}

/// `cells` followed by `rest`, where there is a rest.
pub open spec fn followed_by(
    cells: Seq<Option<Piece>>,
    rest: Option<Seq<Option<Piece>>>,
) -> Option<Seq<Option<Piece>>> {
    match rest {
        Some(rest) => Some(cells + rest),
        None => None,
    }
}

/// The text of a row of cells, from left to right: a piece is written with
/// its letter, and a run of empty cells, as long as it can be taken, with
/// the decimal numeral of its length.
pub open spec fn rank_text(cells: Seq<Option<Piece>>) -> Seq<char>
    decreases cells.len(),
    via rank_text_decreases
{
    if cells.len() == 0 {
        Seq::empty()
    } else {
        match cells[0] {
            Some(piece) => seq![piece_char(piece)] + rank_text(cells.skip(1)),
            None => decimal(empty_run(cells)) + rank_text(cells.skip(empty_run(cells) as int)),
        }
    }
}

#[via_fn]
proof fn rank_text_decreases(cells: Seq<Option<Piece>>) {
    lemma_empty_run(cells);
}

/// The row of cells that a text stands for, if it stands for one: a letter
/// is the piece it names, a run of digits, as long as it can be taken, is as
/// many empty cells as its decimal value says, and any other character
/// spoils the text.
pub open spec fn rank_cells(text: Seq<char>) -> Option<Seq<Option<Piece>>>
    decreases text.len(),
    via rank_cells_decreases
{
    if text.len() == 0 {
        Some(Seq::empty())
    } else if is_digit(text[0]) {
        let n = run_len(text, CharClass::Digit) as int;
        followed_by(empties(decimal_value(text.take(n))), rank_cells(text.skip(n)))
    } else {
        match piece_of_char(text[0]) {
            Some(piece) => followed_by(seq![Some(piece)], rank_cells(text.skip(1))),
            None => None,
        }
    }
}

#[via_fn]
proof fn rank_cells_decreases(text: Seq<char>) {
    lemma_run_len(text, CharClass::Digit);
}

/// The rank that a text stands for: its row of cells, if they are eleven.
pub open spec fn rank_denoted(text: Seq<char>) -> Result<Rank, HnfenError> {
    match rank_cells(text) {
        Some(cells) => if cells.len() == 11 {
            Ok(Rank::of(cells))
        } else {
            Err(HnfenError::MalformedRank)
        },
        None => Err(HnfenError::MalformedRank),
    }
}

/// The rank that the characters from `from` up to `to` stand for.
pub fn rank_from_chars(chars: &Vec<char>, from: usize, to: usize) -> (r: Result<Rank, HnfenError>)
    requires
        from <= to <= chars.len(),
    ensures
        r == rank_denoted(chars@.subrange(from as int, to as int)),
{
    let ghost text = chars@.subrange(from as int, to as int);
    let ghost mut cells: Seq<Option<Piece>> = Seq::empty();
    let mut rank = Rank::default();
    let mut c_index: usize = 0;
    let mut i = from;
    proof {
        assert(chars@.subrange(i as int, to as int) =~= text);
        assert(cells + rank_cells(text)->0 =~= rank_cells(text)->0);
    }
    while i < to
        invariant
            from <= i <= to <= chars.len(),
            text == chars@.subrange(from as int, to as int),
            c_index <= 11,
            cells.len() == c_index,
            forall|k: int| 0 <= k < c_index ==> #[trigger] rank.fields[k] == cells[k],
            forall|k: int| c_index <= k < 11 ==> (#[trigger] rank.fields[k]) is None,
            rank_cells(text) == followed_by(
                cells,
                rank_cells(chars@.subrange(i as int, to as int)),
            ),
        decreases to - i,
    {
        let ghost rest = chars@.subrange(i as int, to as int);
        let k = chars[i];
        assert(rest[0] == k);
        if '0' <= k && k <= '9' {
            let end = run_end(chars, i, to, CharClass::Digit);
            proof {
                lemma_run_len(rest, CharClass::Digit);
                assert(rest.take(end - i) =~= chars@.subrange(i as int, end as int));
                assert(rest.skip(end - i) =~= chars@.subrange(end as int, to as int));
            }
            match decimal_at(chars, i, end, 11 - c_index) {
                Some(n) => {
                    proof {
                        let run = empties(n as nat);
                        assert forall|j: int| c_index <= j < c_index + n implies (cells + run)[j]
                            == rank.fields[j] by {}
                        let tail = rank_cells(chars@.subrange(end as int, to as int));
                        if tail is Some {
                            assert((cells + run) + tail->0 =~= cells + (run + tail->0));
                        }
                        cells = cells + run;
                    }
                    c_index += n;
                    i = end;
                },
                None => {
                    return Err(HnfenError::MalformedRank);
                },
            }
        } else {
            match piece_from_char(k) {
                Some(piece) => {
                    if c_index >= 11 {
                        return Err(HnfenError::MalformedRank);
                    }
                    rank.fields[c_index] = Some(piece);
                    proof {
                        assert(rest.skip(1) =~= chars@.subrange(i + 1, to as int));
                        let tail = rank_cells(chars@.subrange(i + 1, to as int));
                        if tail is Some {
                            assert((cells + seq![Some(piece)]) + tail->0 =~= cells + (seq![
                                Some(piece),
                            ] + tail->0));
                        }
                        cells = cells + seq![Some(piece)];
                    }
                    c_index += 1;
                    i += 1;
                },
                None => {
                    return Err(HnfenError::MalformedRank);
                },
            }
        }
    }
    proof {
        assert(chars@.subrange(to as int, to as int) =~= Seq::<char>::empty());
        assert(cells + Seq::<Option<Piece>>::empty() =~= cells);
    }
    if c_index != 11 {
        Err(HnfenError::MalformedRank)
    } else {
        proof {
            assert(rank.fields =~= Rank::of(cells).fields);
        }
        Ok(rank)
    }
}

impl Hnfen for Rank {
    open spec fn notation(&self) -> Seq<char> {
        rank_text(self.fields@)
    }

    open spec fn denoted(text: Seq<char>) -> Result<Rank, HnfenError> {
        rank_denoted(text)
    }

    fn as_hnfen(&self) -> (text: String) {
        let ghost cells = self.fields@;
        let mut empty_prec: usize = 0;
        let mut buf = String::new();
        let mut i: usize = 0;
        proof {
            assert(cells.skip(0) =~= cells);
            assert(buf@ + rank_text(cells) =~= rank_text(cells));
        }
        while i < 11
            invariant
                i <= 11,
                empty_prec <= i,
                cells == self.fields@,
                forall|k: int| i - empty_prec <= k < i ==> (#[trigger] cells[k]) is None,
                rank_text(cells) == buf@ + rank_text(cells.skip(i - empty_prec)),
            decreases 11 - i,
        {
            let ghost run = cells.skip(i - empty_prec);
            if let Some(p) = self.fields[i] {
                if empty_prec > 0 {
                    proof {
                        assert forall|k: int| 0 <= k < empty_prec implies (#[trigger] run[k])
                            is None by {
                            assert(run[k] == cells[i - empty_prec + k]);
                        }
                        assert(run[empty_prec as int] == cells[i as int]);
                        lemma_empty_run_is(run, empty_prec as int);
                        assert(run.skip(empty_prec as int) =~= cells.skip(i as int));
                    }
                    let ghost before = buf@;
                    push_decimal(&mut buf, empty_prec);
                    proof {
                        assert(before + (decimal(empty_prec as nat) + rank_text(
                            cells.skip(i as int),
                        )) =~= buf@ + rank_text(cells.skip(i as int)));
                    }
                    empty_prec = 0;
                }
                let ghost before = buf@;
                buf.append(piece_str(p));
                proof {
                    let here = cells.skip(i as int);
                    assert(here[0] == Some(p));
                    assert(here.skip(1) =~= cells.skip(i + 1));
                    assert(before + (seq![piece_char(p)] + rank_text(cells.skip(i + 1))) =~= buf@
                        + rank_text(cells.skip(i + 1)));
                }
            } else {
                empty_prec += 1;
            }
            i += 1;
        }
        if empty_prec > 0 {
            proof {
                let run = cells.skip(11 - empty_prec);
                assert forall|k: int| 0 <= k < empty_prec implies (#[trigger] run[k]) is None by {
                    assert(run[k] == cells[11 - empty_prec + k]);
                }
                lemma_empty_run_is(run, empty_prec as int);
                assert(run.skip(empty_prec as int) =~= Seq::<Option<Piece>>::empty());
                assert(decimal(empty_prec as nat) + rank_text(Seq::<Option<Piece>>::empty())
                    =~= decimal(empty_prec as nat));
            }
            push_decimal(&mut buf, empty_prec);
        } else {
            proof {
                assert(cells.skip(11) =~= Seq::<Option<Piece>>::empty());
                assert(buf@ + Seq::<char>::empty() =~= buf@);
            }
        }
        buf
    }

    fn from_hnfen(hnfen: &str) -> (r: Result<Rank, HnfenError>) {
        let chars = chars_of(hnfen);
        proof {
            assert(chars@.subrange(0, chars.len() as int) =~= hnfen@);
        }
        rank_from_chars(&chars, 0, chars.len())
    }
}

/// The letter of the column with the index `x`.
pub open spec fn column_char(x: int) -> char {
    ('a' as int + x) as char
}

/// The text of the cell `(x, y)`: the letter of its column, then the
/// decimal numeral of its row, which is `11 - y`.
pub open spec fn position_text(x: int, y: int) -> Seq<char> {
    seq![column_char(x)] + decimal((11 - y) as nat)
}

/// The position that a text stands for: a column letter `a`..`k` followed
/// by one or two digits that give a row from 1 to 11.
pub open spec fn position_denoted(text: Seq<char>) -> Result<Position, HnfenError> {
    if 2 <= text.len() <= 3 && 'a' <= text[0] <= 'k' && all_digits(text.skip(1)) && 1
        <= decimal_value(text.skip(1)) <= 11 {
        Ok(Position::at(text[0] as int - 'a' as int, 11 - decimal_value(text.skip(1))))
    } else {
        Err(HnfenError::MalformedPosition)
    }
}

/// The move that a text stands for: a position, which ends with the first
/// run of digits, followed by a position.
pub open spec fn move_denoted(text: Seq<char>) -> Result<Move, HnfenError> {
    if text.len() == 0 {
        Err(HnfenError::MalformedMove)
    } else {
        let n = 1 + run_len(text.skip(1), CharClass::Digit) as int;
        match (position_denoted(text.take(n)), position_denoted(text.skip(n))) {
            (Ok(from), Ok(to)) => Ok(Move { from, to }),
            _ => Err(HnfenError::MalformedMove),
        }
    }
}

/// The letter of the column with the index `x`, as a text.
pub fn column_str(x: usize) -> (s: &'static str)
    requires
        x < 11,
    ensures
        s@ == seq![column_char(x as int)],
{
    proof {
        reveal_strlit("a");
        reveal_strlit("b");
        reveal_strlit("c");
        reveal_strlit("d");
        reveal_strlit("e");
        reveal_strlit("f");
        reveal_strlit("g");
        reveal_strlit("h");
        reveal_strlit("i");
        reveal_strlit("j");
        reveal_strlit("k");
    }
    let s = match x {
        0 => "a",
        1 => "b",
        2 => "c",
        3 => "d",
        4 => "e",
        5 => "f",
        6 => "g",
        7 => "h",
        8 => "i",
        9 => "j",
        _ => "k",
    };
    assert(s@ =~= seq![column_char(x as int)]);
    s
}

/// Appends the text of `pos` to `buf`.
pub fn push_position(buf: &mut String, pos: &Position)
    ensures
        final(buf)@ == old(buf)@ + position_text(pos.x(), pos.y()),
{
    let (x, y) = pos.to_indices();
    buf.append(column_str(x));
    push_decimal(buf, 11 - y);
    proof {
        assert(buf@ =~= old(buf)@ + position_text(pos.x(), pos.y()));
    }
}

/// The position that the characters from `from` up to `to` stand for.
pub fn position_from_chars(chars: &Vec<char>, from: usize, to: usize) -> (r: Result<
    Position,
    HnfenError,
>)
    requires
        from <= to <= chars.len(),
    ensures
        r == position_denoted(chars@.subrange(from as int, to as int)),
        r matches Ok(pos) ==> pos.wf(),
{
    let ghost text = chars@.subrange(from as int, to as int);
    if to - from < 2 || to - from > 3 {
        return Err(HnfenError::MalformedPosition);
    }
    let column = chars[from];
    assert(text[0] == column);
    let end = run_end(chars, from + 1, to, CharClass::Digit);
    proof {
        let digits = chars@.subrange(from + 1, to as int);
        lemma_run_len(digits, CharClass::Digit);
        assert(digits =~= text.skip(1));
        if end < to {
            assert(!is_digit(digits[end - from - 1]));
        }
    }
    if end != to {
        return Err(HnfenError::MalformedPosition);
    }
    match decimal_at(chars, from + 1, to, 11) {
        Some(row) => match Position::new(column, row as u8) {
            Some(pos) => Ok(pos),
            None => Err(HnfenError::MalformedPosition),
        },
        None => Err(HnfenError::MalformedPosition),
    }
}

impl Hnfen for Position {
    open spec fn notation(&self) -> Seq<char> {
        position_text(self.x(), self.y())
    }

    open spec fn denoted(text: Seq<char>) -> Result<Position, HnfenError> {
        position_denoted(text)
    }

    fn as_hnfen(&self) -> (text: String) {
        let mut buf = String::new();
        push_position(&mut buf, self);
        proof {
            assert(Seq::<char>::empty() + position_text(self.x(), self.y()) =~= position_text(
                self.x(),
                self.y(),
            ));
        }
        buf
    }

    fn from_hnfen(hnfen: &str) -> (r: Result<Position, HnfenError>) {
        let chars = chars_of(hnfen);
        proof {
            assert(chars@.subrange(0, chars.len() as int) =~= hnfen@);
        }
        position_from_chars(&chars, 0, chars.len())
    }
}

impl Position {
    /// The text of the position, as `as_hnfen` gives it.
    pub fn to_string(&self) -> (text: String)
        ensures
            text@ == self.notation(),
    {
        self.as_hnfen()
    }
}

impl Hnfen for Move {
    open spec fn notation(&self) -> Seq<char> {
        self.from.notation() + self.to.notation()
    }

    open spec fn denoted(text: Seq<char>) -> Result<Move, HnfenError> {
        move_denoted(text)
    }

    fn as_hnfen(&self) -> (text: String) {
        let mut buf = String::new();
        push_position(&mut buf, &self.from);
        push_position(&mut buf, &self.to);
        proof {
            assert(buf@ =~= self.from.notation() + self.to.notation());
        }
        buf
    }

    fn from_hnfen(hnfen: &str) -> (r: Result<Move, HnfenError>) {
        let chars = chars_of(hnfen);
        if chars.len() == 0 {
            return Err(HnfenError::MalformedMove);
        }
        let mid = run_end(&chars, 1, chars.len(), CharClass::Digit);
        proof {
            assert(chars@.subrange(1, chars.len() as int) =~= hnfen@.skip(1));
            assert(chars@.subrange(0, mid as int) =~= hnfen@.take(mid as int));
            assert(chars@.subrange(mid as int, chars.len() as int) =~= hnfen@.skip(mid as int));
        }
        match position_from_chars(&chars, 0, mid) {
            Ok(from) => match position_from_chars(&chars, mid, chars.len()) {
                Ok(to) => Ok(Move { from, to }),
                Err(_) => Err(HnfenError::MalformedMove),
            },
            Err(_) => Err(HnfenError::MalformedMove),
        }
    }
}

impl Move {
    /// The text of the move, as `as_hnfen` gives it.
    pub fn to_string(&self) -> (text: String)
        ensures
            text@ == self.notation(),
    {
        self.as_hnfen()
    }
}

/// The first word of a text: what stands between the white space at its
/// head and the next white space.
pub open spec fn first_word(text: Seq<char>) -> Seq<char> {
    let rest = text.skip(run_len(text, CharClass::Space) as int);
    rest.take(run_len(rest, CharClass::Word) as int)
}

/// What follows the first word of a text.
pub open spec fn after_first_word(text: Seq<char>) -> Seq<char> {
    let rest = text.skip(run_len(text, CharClass::Space) as int);
    rest.skip(run_len(rest, CharClass::Word) as int)
}

/// The parts of a text that the separator `/` keeps apart. A text without a
/// separator is one part, and a separator at the end has an empty part
/// behind it.
pub open spec fn fields(text: Seq<char>) -> Seq<Seq<char>>
    decreases text.len(),
    via fields_decreases
{
    let n = run_len(text, CharClass::Field) as int;
    if n >= text.len() {
        seq![text]
    } else {
        seq![text.take(n)] + fields(text.skip(n + 1))
    }
}

#[via_fn]
proof fn fields_decreases(text: Seq<char>) {
    lemma_run_len(text, CharClass::Field);
}

/// The texts of the ranks, with a separator `/` between each two of them.
pub open spec fn ranks_text(ranks: Seq<Rank>) -> Seq<char>
    decreases ranks.len(),
{
    if ranks.len() == 0 {
        Seq::empty()
    } else if ranks.len() == 1 {
        ranks[0].notation()
    } else {
        ranks[0].notation() + seq!['/'] + ranks_text(ranks.skip(1))
    }
}

/// Whether each of the texts stands for a rank.
pub open spec fn all_ranks(parts: Seq<Seq<char>>) -> bool {
    forall|i: int| 0 <= i < parts.len() ==> rank_denoted(#[trigger] parts[i]) is Ok
}

/// The board that a text stands for. Its first word holds eleven ranks
/// kept apart by `/`, the top one first; its second word, if there is one,
/// names the side that moves next, which is the attackers if there is none.
/// What follows the second word counts for nothing.
pub open spec fn board_denoted(text: Seq<char>) -> Result<Board, HnfenError> {
    let parts = fields(first_word(text));
    let side = first_word(after_first_word(text));
    if parts.len() != 11 || !all_ranks(parts) {
        Err(HnfenError::MalformedBoard)
    } else if side.len() > 0 && Player::denoted(side) is Err {
        Err(HnfenError::UnrecognizedToken)
    } else {
        Ok(
            Board {
                ranks: [
                    rank_denoted(parts[0])->Ok_0,
                    rank_denoted(parts[1])->Ok_0,
                    rank_denoted(parts[2])->Ok_0,
                    rank_denoted(parts[3])->Ok_0,
                    rank_denoted(parts[4])->Ok_0,
                    rank_denoted(parts[5])->Ok_0,
                    rank_denoted(parts[6])->Ok_0,
                    rank_denoted(parts[7])->Ok_0,
                    rank_denoted(parts[8])->Ok_0,
                    rank_denoted(parts[9])->Ok_0,
                    rank_denoted(parts[10])->Ok_0,
                ],
                next: if side.len() > 0 {
                    Player::denoted(side)->Ok_0
                } else {
                    Player::Black
                },
            },
        )
    }
}

impl Hnfen for Board {
    open spec fn notation(&self) -> Seq<char> {
        ranks_text(self.ranks@) + seq![' '] + self.next.notation()
    }

    open spec fn denoted(text: Seq<char>) -> Result<Board, HnfenError> {
        board_denoted(text)
    }

    fn as_hnfen(&self) -> (text: String) {
        let ghost rows = self.ranks@;
        let mut buf = String::new();
        let mut i: usize = 0;
        proof {
            assert(rows.skip(0) =~= rows);
            assert(buf@ + ranks_text(rows) =~= ranks_text(rows));
        }
        while i < 11
            invariant
                i <= 11,
                rows == self.ranks@,
                ranks_text(rows) == buf@ + ranks_text(rows.skip(i as int)),
            decreases 11 - i,
        {
            let ghost before = buf@;
            let ghost rest = rows.skip(i as int);
            let rank = self.ranks[i].as_hnfen();
            buf.append(rank.as_str());
            proof {
                assert(rest[0] == rows[i as int]);
                assert(rest.skip(1) =~= rows.skip(i + 1));
            }
            if i < 10 {
                buf.append("/");
                proof {
                    reveal_strlit("/");
                    assert(buf@ + ranks_text(rows.skip(i + 1)) =~= before + (rest[0].notation()
                        + seq!['/'] + ranks_text(rest.skip(1))));
                }
            } else {
                proof {
                    assert(buf@ + ranks_text(rows.skip(i + 1)) =~= before + rest[0].notation());
                }
            }
            i += 1;
        }
        proof {
            assert(rows.skip(11) =~= Seq::<Rank>::empty());
            assert(buf@ + Seq::<char>::empty() =~= buf@);
        }
        buf.append(" ");
        buf.append(player_str(self.next));
        proof {
            reveal_strlit(" ");
            assert(buf@ =~= ranks_text(rows) + seq![' '] + self.next.notation());
        }
        buf
    }

    fn from_hnfen(hnfen: &str) -> (r: Result<Board, HnfenError>) {
        let chars = chars_of(hnfen);
        let len = chars.len();
        let start = run_end(&chars, 0, len, CharClass::Space);
        let stop = run_end(&chars, start, len, CharClass::Word);
        let side_start = run_end(&chars, stop, len, CharClass::Space);
        let side_stop = run_end(&chars, side_start, len, CharClass::Word);
        let ghost text = hnfen@;
        let ghost layout = chars@.subrange(start as int, stop as int);
        let ghost side = chars@.subrange(side_start as int, side_stop as int);
        proof {
            assert(chars@.subrange(0, len as int) =~= text);
            let rest = text.skip(start as int);
            assert(rest =~= chars@.subrange(start as int, len as int));
            assert(rest.take(stop - start) =~= layout);
            assert(layout == first_word(text));
            let after = rest.skip(stop - start);
            assert(after =~= chars@.subrange(stop as int, len as int));
            assert(after == after_first_word(text));
            let tail = after.skip(side_start - stop);
            assert(tail =~= chars@.subrange(side_start as int, len as int));
            assert(tail.take(side_stop - side_start) =~= side);
            assert(side == first_word(after_first_word(text)));
        }
        let mut ranks = [
            Rank::default(),
            Rank::default(),
            Rank::default(),
            Rank::default(),
            Rank::default(),
            Rank::default(),
            Rank::default(),
            Rank::default(),
            Rank::default(),
            Rank::default(),
            Rank::default(),
        ];
        let ghost mut done: Seq<Seq<char>> = Seq::empty();
        let mut pos = start;
        let mut more = true;
        let mut k: usize = 0;
        proof {
            assert(done + fields(layout) =~= fields(layout));
        }
        while more && k < 11
            invariant
                k <= 11,
                start <= pos <= stop <= chars.len(),
                layout == chars@.subrange(start as int, stop as int),
                layout == first_word(hnfen@),
                done.len() == k,
                forall|j: int| 0 <= j < k ==> rank_denoted(#[trigger] done[j]) == Ok::<
                    Rank,
                    HnfenError,
                >(ranks[j]),
                more ==> fields(layout) == done + fields(chars@.subrange(pos as int, stop as int)),
                !more ==> fields(layout) == done,
            decreases (11 - k) + (if more { 1int } else { 0int }),
        {
            let ghost rest = chars@.subrange(pos as int, stop as int);
            let end = run_end(&chars, pos, stop, CharClass::Field);
            let ghost part = chars@.subrange(pos as int, end as int);
            proof {
                assert(rest.take(end - pos) =~= part);
                if end < stop {
                    assert(rest.skip(end - pos + 1) =~= chars@.subrange(end + 1, stop as int));
                    assert(done + (seq![part] + fields(chars@.subrange(end + 1, stop as int)))
                        =~= (done + seq![part]) + fields(chars@.subrange(end + 1, stop as int)));
                } else {
                    assert(part =~= rest);
                }
            }
            match rank_from_chars(&chars, pos, end) {
                Ok(rank) => {
                    ranks[k] = rank;
                },
                Err(_) => {
                    proof {
                        let parts = fields(layout);
                        assert(parts[k as int] == part);
                        assert(rank_denoted(parts[k as int]) is Err);
                        assert(!all_ranks(parts));
                    }
                    return Err(HnfenError::MalformedBoard);
                },
            }
            proof {
                done = done + seq![part];
            }
            k += 1;
            if end < stop {
                pos = end + 1;
            } else {
                more = false;
            }
        }
        if more || k != 11 {
            proof {
                if more {
                    let rest = fields(chars@.subrange(pos as int, stop as int));
                    assert(rest.len() >= 1);
                }
            }
            return Err(HnfenError::MalformedBoard);
        }
        let ghost parts = fields(layout);
        assert(all_ranks(parts));
        let next = if side_stop > side_start {
            if side_stop - side_start != 1 {
                return Err(HnfenError::UnrecognizedToken);
            }
            assert(side[0] == chars@[side_start as int]);
            match player_from_char(chars[side_start]) {
                Some(player) => player,
                None => {
                    return Err(HnfenError::UnrecognizedToken);
                },
            }
        } else {
            Player::Black
        };
        let board = Board { ranks, next };
        proof {
            assert(board.ranks =~= board_denoted(text)->Ok_0.ranks);
        }
        Ok(board)
    }
}

} // verus!
