//! Ultimate tic-tac-toe on a 9x9 board: nine 3x3 squares, where the cell played
//! inside its square names the square that the next move must go to.
use vstd::prelude::*;
use crate::text::{chars_to_string, decimal_chars, push_decimal};

verus! {

/// The content of one cell, or the piece of a player.
#[derive(Clone, Copy, Debug, PartialEq, Eq, Structural)]
pub enum Piece {
    Empty,
    X,
    O,
}

/// The piece of the other player; `Empty` stays `Empty`.
pub open spec fn next_spec(p: Piece) -> Piece {
    match p {
        Piece::Empty => Piece::Empty,
        Piece::X => Piece::O,
        Piece::O => Piece::X,
    }
}

impl Piece {
    /// The piece of the other player; `Empty` stays `Empty`.
    pub fn next(self) -> (r: Piece)
        ensures
            r == next_spec(self),
    {
        match self {
            Piece::Empty => Piece::Empty,
            Piece::X => Piece::O,
            Piece::O => Piece::X,
        }
    }
}

/// A cell given by column and row, both counted from 0.
#[derive(Clone, Copy, Debug, PartialEq, Eq, Structural)]
pub struct Position(pub usize, pub usize);

/// The cell number of a position: cells are numbered row by row.
pub open spec fn index_of(p: Position) -> int {
    p.0 + 9 * p.1
}

/// The position of cell number `i`.
pub open spec fn position_of(i: int) -> Position {
    Position((i % 9) as usize, (i / 9) as usize)
}

/// Conversion of a cell number into a position.
pub trait Index {
    /// The position that this value stands for.
    spec fn position_spec(&self) -> Position;

    fn position(self) -> (r: Position)
        ensures
            r == self.position_spec(),
    ;
}

impl Index for usize {
    open spec fn position_spec(&self) -> Position {
        position_of(*self as int)
    }

    fn position(self) -> (r: Position) {
        Position::from_index(self)
    }
}

/// Cell numbers and positions on the board convert into each other and back.
pub proof fn lemma_position_round_trip(i: usize, x: usize, y: usize)
    requires
        x < 9,
        y < 9,
    ensures
        index_of(position_of(i as int)) == i,
        position_of(index_of(Position(x, y))) == Position(x, y),
{
    let n = x + 9 * y;
    assert(n % 9 == x && n / 9 == y) by (nonlinear_arith)
        requires n == x + 9 * y, x < 9, y < 9, 0 <= y;
    let (q, r) = ((i as int) / 9, (i as int) % 9);
    assert(r + 9 * q == i) by (nonlinear_arith)
        requires q == (i as int) / 9, r == (i as int) % 9, i >= 0;
}

impl Position {
    /// The position of cell number `i`.
    pub fn from_index(i: usize) -> (r: Position)
        ensures
            r == position_of(i as int),
            index_of(r) == i,
    {
        Position(i % 9, i / 9)
    }

    /// The cell number of this position.
    pub fn index(self) -> (r: usize)
        requires
            index_of(self) <= usize::MAX,
        ensures
            r == index_of(self),
    {
        self.0 + 9 * self.1
    }

    /// Reads a position from text of the form "x y"; see `parse_position`.
    pub fn from_string(s: String) -> (r: Result<Position, PositionError>)
        ensures
            r == parse_position(vstd::utf8::encode_utf8(s@)),
    {
        let b = s.as_str().as_bytes();
        let i = find_space(b, 0);
        let x = match parse_field(b, 0, i) {
            Some(x) => x,
            None => return Err(PositionError::NotANumber),
        };
        if i >= b.len() {
            return Err(PositionError::Empty(Empty));
        }
        let j = find_space(b, i + 1);
        match parse_field(b, i + 1, j) {
            Some(y) => Ok(Position(x, y)),
            None => Err(PositionError::NotANumber),
        }
    }

    /// The position as text: column, a space, row.
    pub fn format(self) -> (r: String)
        ensures
            r@ == decimal_chars(self.0 as nat) + seq![' '] + decimal_chars(self.1 as nat),
    {
        let mut out: Vec<char> = Vec::new();
        push_decimal(self.0, &mut out);
        out.push(' ');
        push_decimal(self.1, &mut out);
        chars_to_string(&out)
    }

    /// The top-left cell of the 3x3 square that holds this position.
    pub fn get_first(self) -> (r: Position)
        ensures
            r == Position(((self.0 / 3) * 3) as usize, ((self.1 / 3) * 3) as usize),
    {
        Position((self.0 / 3) * 3, (self.1 / 3) * 3)
    }
}

/// A position string lacked one of its two numbers.
#[derive(Debug)]
pub struct Empty;

/// A piece cannot go where it was asked to: the starting piece was `Empty`, or
/// the cell already holds this piece.
#[derive(Debug)]
pub struct PieceNotAllowd(pub Piece);

/// A move to an empty cell outside the square that the last move named; carries the
/// position asked for and the positions allowed, in increasing cell order.
#[derive(Debug)]
pub struct NotAValidMove(pub Position, pub Vec<Position>);

/// A position outside the board.
#[derive(Debug)]
pub struct OutOfBound;

/// Why a position could not be read from text.
#[derive(Debug)]
pub enum PositionError {
    Empty(Empty),
    NotANumber,
}

/// Index of the first space at or after `i` in `b`, or `b.len()` if there is none.
pub open spec fn space_from(b: Seq<u8>, i: int) -> int
    decreases b.len() - i,
{
    if i >= b.len() {
        b.len() as int
    } else if b[i] == 32u8 {
        i
    } else {
        space_from(b, i + 1)
    }
}

/// `c` is an ASCII decimal digit.
pub open spec fn is_digit(c: u8) -> bool {
    48 <= c <= 57
}

/// The number that the decimal digits `d` write.
pub open spec fn decimal_value(d: Seq<u8>) -> nat
    decreases d.len(),
{
    if d.len() == 0 { 0 } else { decimal_value(d.drop_last()) * 10 + (d.last() - 48) as nat }
}

/// The field `f` without its leading `+`, if it has one.
pub open spec fn unsigned_part(f: Seq<u8>) -> Seq<u8> {
    if f.len() > 0 && f[0] == 43u8 { f.drop_first() } else { f }
}

/// Every byte of `d` is a decimal digit.
pub open spec fn all_digits(d: Seq<u8>) -> bool {
    forall|k: int| 0 <= k < d.len() ==> is_digit(#[trigger] d[k])
}

/// The number that the field `f` writes: an optional `+`, then one or more decimal
/// digits, of a value that fits in `usize`.
pub open spec fn field_value(f: Seq<u8>) -> Option<usize> {
    let d = unsigned_part(f);
    if d.len() > 0 && all_digits(d) && decimal_value(d) <= usize::MAX {
        Some(decimal_value(d) as usize)
    } else {
        None
    }
}

/// Reading "x y" from the bytes `b`: the first two space-separated fields are the
/// column and the row; further fields are ignored.
pub open spec fn parse_position(b: Seq<u8>) -> Result<Position, PositionError> {
    let i = space_from(b, 0);
    let j = space_from(b, i + 1);
    match field_value(b.subrange(0, i)) {
        None => Err(PositionError::NotANumber),
        Some(x) => if i >= b.len() {
            Err(PositionError::Empty(Empty))
        } else {
            match field_value(b.subrange(i + 1, j)) {
                None => Err(PositionError::NotANumber),
                Some(y) => Ok(Position(x, y)),
            }
        },
    }
}

/// Index of the first space at or after `from`, or the length of `b`.
fn find_space(b: &[u8], from: usize) -> (r: usize)
    requires
        from <= b@.len(),
    ensures
        r as int == space_from(b@, from as int),
        from <= r <= b@.len(),
{
    let mut i = from;
    while i < b.len()
        invariant
            from <= i <= b@.len(),
            space_from(b@, from as int) == space_from(b@, i as int),
        decreases b@.len() - i,
    {
        if b[i] == 32u8 {
            return i;
        }
        i += 1;
    }
    i
}

/// The number that the field `b[from..to]` writes; see `field_value`.
fn parse_field(b: &[u8], from: usize, to: usize) -> (r: Option<usize>)
    requires
        from <= to <= b@.len(),
    ensures
        r == field_value(b@.subrange(from as int, to as int)),
{
    let ghost f = b@.subrange(from as int, to as int);
    let mut start = from;
    if from < to && b[from] == 43u8 {
        start = from + 1;
    }
    let ghost d = b@.subrange(start as int, to as int);
    assert(d == unsigned_part(f));
    if start == to {
        return None;
    }
    let mut v: usize = 0;
    let mut over = false;
    let mut i = start;
    while i < to
        invariant
            start <= i <= to <= b@.len(),
            d == b@.subrange(start as int, to as int),
            f == b@.subrange(from as int, to as int),
            d == unsigned_part(f),
            d.len() > 0,
            from <= start,
            forall|k: int| start <= k < i ==> is_digit(#[trigger] b@[k]),
            over ==> decimal_value(b@.subrange(start as int, i as int)) > usize::MAX,
            !over ==> v == decimal_value(b@.subrange(start as int, i as int)),
        decreases to - i,
    {
        let c = b[i];
        if c < 48u8 || c > 57u8 {
            assert(d[i - start] == c);
            assert(!is_digit(d[i - start]));
            assert(!all_digits(d));
            return None;
        }
        let digit = (c - 48u8) as usize;
        let ghost prev = b@.subrange(start as int, i as int);
        assert(b@.subrange(start as int, i + 1).drop_last() =~= prev);
        if !over {
            if v > (usize::MAX - digit) / 10 {
                over = true;
            } else {
                v = v * 10 + digit;
            }
        }
        i += 1;
    }
    assert(b@.subrange(start as int, to as int) == d);
    assert forall|k: int| 0 <= k < d.len() implies is_digit(#[trigger] d[k]) by {
        assert(d[k] == b@[start + k]);
    }
    if over { None } else { Some(v) }
}

/// Why a game could not be created or a move made.
#[derive(Debug)]
pub enum TicTacToeError {
    PieceNotAllowd(PieceNotAllowd),
    NotAValidMove(NotAValidMove),
    OutOfBound(OutOfBound),
}

/// Offsets, from the top-left cell of a square, of the cells of its eight lines,
/// three by three: rows, columns, diagonals.
pub open spec fn line_offsets() -> Seq<usize> {
    seq![0, 1, 2, 9, 10, 11, 18, 19, 20, 0, 9, 18, 1, 10, 19, 2, 11, 20, 0, 10, 20, 2, 10, 18]
}

/// The winner shown by the first of lines `k..8` of the square at cell `i` whose
/// three cells are equal; an empty line counts and shows `Empty`.
pub open spec fn local_winner_from(b: Seq<Piece>, i: int, k: int) -> Piece
    decreases 8 - k,
{
    if k >= 8 || k < 0 {
        Piece::Empty
    } else {
        let o = line_offsets();
        let (a, c, d) = (b[i + o[3 * k] as int], b[i + o[3 * k + 1] as int], b[i + o[3 * k + 2] as int]);
        if a == c && a == d { a } else { local_winner_from(b, i, k + 1) }
    }
}

/// The winner of the square whose top-left cell is `i`.
pub open spec fn local_winner(b: Seq<Piece>, i: int) -> Piece {
    local_winner_from(b, i, 0)
}

/// Top-left cells of the nine squares.
pub open spec fn square_firsts() -> Seq<usize> {
    seq![0, 3, 6, 27, 30, 33, 54, 57, 60]
}

/// The winners of the nine squares, as a 3x3 board of its own.
pub open spec fn square_winners(b: Seq<Piece>) -> Seq<Piece> {
    Seq::new(9, |k: int| local_winner(b, square_firsts()[k] as int))
}

/// The cells of the eight lines of a 3x3 board, three by three: rows, columns, diagonals.
pub open spec fn square_lines() -> Seq<usize> {
    seq![0, 1, 2, 3, 4, 5, 6, 7, 8, 0, 3, 6, 1, 4, 7, 2, 5, 8, 0, 4, 8, 2, 4, 6]
}

/// The winner of the whole board: the first complete line of square winners.
pub open spec fn global_winner(b: Seq<Piece>) -> Piece {
    let w = square_winners(b);
    winner_among(w, square_lines(), 0)
}

/// The first of lines `k..8` of the 3x3 board `w`, given by cell triples in `o`,
/// whose three cells are equal.
pub open spec fn winner_among(w: Seq<Piece>, o: Seq<usize>, k: int) -> Piece
    decreases 8 - k,
{
    if k >= 8 || k < 0 {
        Piece::Empty
    } else if w[o[3 * k] as int] == w[o[3 * k + 1] as int] && w[o[3 * k] as int] == w[o[3 * k + 2] as int] {
        w[o[3 * k] as int]
    } else {
        winner_among(w, o, k + 1)
    }
}

/// The entries `c` of `cells` whose cell in `b` is empty, in order.
pub open spec fn empty_among(b: Seq<Piece>, cells: Seq<int>) -> Seq<usize>
    decreases cells.len(),
{
    if cells.len() == 0 {
        seq![]
    } else {
        let rest = empty_among(b, cells.drop_last());
        if b[cells.last()] == Piece::Empty { rest.push(cells.last() as usize) } else { rest }
    }
}

/// The cells of the 3x3 square whose top-left cell is `i`, in increasing order.
pub open spec fn square_cells(i: int) -> Seq<int> {
    seq![i, i + 1, i + 2, i + 9, i + 10, i + 11, i + 18, i + 19, i + 20]
}

/// Cell number of the top-left cell of the square that a move at `p` sends the
/// next player to: the square at the place that `p` has inside its own square.
pub open spec fn target_first(p: Position) -> int {
    index_of(Position(((p.0 % 3) * 3) as usize, ((p.1 % 3) * 3) as usize))
}

/// The empty cells that a move may go to after `last`: those of the square that
/// `last` names by its place inside its own square (`target_first`), which is in
/// general not the square that `last` was played in; or any empty cell when there
/// is no last move to follow.
pub open spec fn moves_spec(b: Seq<Piece>, last: Option<Position>) -> Seq<usize> {
    match last {
        Some(p) => empty_among(b, square_cells(target_first(p))),
        None => empty_among(b, Seq::new(81, |i: int| i)),
    }
}

/// The moves allowed now: those after the last move, or, where its square is
/// full, any empty cell.
pub open spec fn allowed_moves(b: Seq<Piece>, last: Option<Position>) -> Seq<usize> {
    if moves_spec(b, last).len() == 0 { moves_spec(b, None) } else { moves_spec(b, last) }
}

/// A game of ultimate tic-tac-toe: the board, the piece that moves next and the
/// last move that still constrains the next one.
#[derive(Clone)]
pub struct TicTacToe {
    board: Vec<Piece>,
    next_piece: Piece,
    last_move: Option<Position>,
}

impl TicTacToe {
    /// The 81 cells, row by row.
    pub closed spec fn cells(&self) -> Seq<Piece> {
        self.board@
    }

    /// The piece that moves next.
    pub closed spec fn to_move(&self) -> Piece {
        self.next_piece
    }

    /// The last move that constrains the next one, if any.
    pub closed spec fn last(&self) -> Option<Position> {
        self.last_move
    }

    /// A game on an empty board, with `starter` to move first; `starter` must be a
    /// player's piece.
    pub fn new(starter: Piece) -> (r: Result<TicTacToe, TicTacToeError>)
        ensures
            starter == Piece::Empty <==> r is Err,
            r matches Err(e) ==> e == TicTacToeError::PieceNotAllowd(PieceNotAllowd(starter)),
            r matches Ok(t) ==> {
                &&& t.wf()
                &&& t.cells() == Seq::new(81, |i: int| Piece::Empty)
                &&& t.to_move() == starter
                &&& t.last() is None
            },
    {
        if starter == Piece::Empty {
            return Err(TicTacToeError::PieceNotAllowd(PieceNotAllowd(starter)));
        }
        let mut board: Vec<Piece> = Vec::new();
        let mut i: usize = 0;
        while i < 81
            invariant
                i <= 81,
                board@ == Seq::new(i as nat, |k: int| Piece::Empty),
            decreases 81 - i,
        {
            board.push(Piece::Empty);
            i += 1;
            assert(board@ =~= Seq::new(i as nat, |k: int| Piece::Empty));
        }
        Ok(TicTacToe { board, next_piece: starter, last_move: None })
    }

    /// Whether the square whose top-left cell is `p` has a winner.
    pub fn check_square_full(&self, p: Position) -> (r: bool)
        requires
            self.wf(),
            index_of(p) + 20 < 81,
        ensures
            r == (local_winner(self.cells(), index_of(p)) != Piece::Empty),
    {
        match self.check_winner_local(p) {
            Piece::Empty => false,
            _ => true,
        }
    }

    /// The winner of the square whose top-left cell is `p`; see `local_winner`.
    pub fn check_winner_local(&self, p: Position) -> (r: Piece)
        requires
            self.wf(),
            index_of(p) + 20 < 81,
        ensures
            r == local_winner(self.cells(), index_of(p)),
    {
        let i = p.index();
        let o: [usize; 24] = [0, 1, 2, 9, 10, 11, 18, 19, 20, 0, 9, 18, 1, 10, 19, 2, 11, 20, 0, 10, 20, 2, 10, 18];
        assert(o@ =~= line_offsets());
        let mut k: usize = 0;
        while k < 8
            invariant
                k <= 8,
                o@ == line_offsets(),
                i + 20 < 81,
                i == index_of(p),
                self.board@.len() == 81,
                local_winner(self.board@, i as int) == local_winner_from(self.board@, i as int, k as int),
            decreases 8 - k,
        {
            let a = self.board[i + o[3 * k]];
            let c = self.board[i + o[3 * k + 1]];
            let d = self.board[i + o[3 * k + 2]];
            assert(local_winner_from(self.board@, i as int, k as int) == if a == c && a == d {
                a
            } else {
                local_winner_from(self.board@, i as int, k as int + 1)
            });
            if a == c && a == d {
                return a;
            }
            k += 1;
        }
        Piece::Empty
    }

    /// The winner of the whole board; see `global_winner`.
    pub fn check_winner(&self) -> (r: Piece)
        requires
            self.wf(),
        ensures
            r == global_winner(self.cells()),
    {
        let firsts: [usize; 9] = [0, 3, 6, 27, 30, 33, 54, 57, 60];
        assert(firsts@ =~= square_firsts());
        let mut w: Vec<Piece> = Vec::new();
        let mut j: usize = 0;
        while j < 9
            invariant
                j <= 9,
                firsts@ == square_firsts(),
                self.wf(),
                w@ == square_winners(self.cells()).subrange(0, j as int),
            decreases 9 - j,
        {
            w.push(self.check_winner_local(Position::from_index(firsts[j])));
            j += 1;
            assert(w@ =~= square_winners(self.cells()).subrange(0, j as int));
        }
        assert(w@ =~= square_winners(self.cells()));
        let o: [usize; 24] = [0, 1, 2, 3, 4, 5, 6, 7, 8, 0, 3, 6, 1, 4, 7, 2, 5, 8, 0, 4, 8, 2, 4, 6];
        assert(o@ =~= square_lines());
        let mut k: usize = 0;
        while k < 8
            invariant
                k <= 8,
                o@ == square_lines(),
                w@ == square_winners(self.cells()),
                global_winner(self.cells()) == winner_among(w@, o@, k as int),
            decreases 8 - k,
        {
            if w[o[3 * k]] == w[o[3 * k + 1]] && w[o[3 * k]] == w[o[3 * k + 2]] {
                return w[o[3 * k]];
            }
            k += 1;
        }
        Piece::Empty
    }

    /// The empty cells that the last move allows, in increasing order; see `moves_spec`.
    pub fn moves(&self) -> (r: Vec<usize>)
        requires
            self.wf(),
        ensures
            r@ == moves_spec(self.cells(), self.last()),
    {
        let mut r: Vec<usize> = Vec::new();
        match self.last_move {
            Some(pos) => {
                let first = Position((pos.0 % 3) * 3, (pos.1 % 3) * 3).index();
                let cells: [usize; 9] = [first, first + 1, first + 2, first + 9, first + 10, first + 11, first + 18, first + 19, first + 20];
                assert(cells@.map_values(|c: usize| c as int) =~= square_cells(first as int));
                let mut j: usize = 0;
                while j < 9
                    invariant
                        j <= 9,
                        first + 20 < 81,
                        self.board@.len() == 81,
                        cells@.map_values(|c: usize| c as int) == square_cells(first as int),
                        r@ == empty_among(self.board@, square_cells(first as int).subrange(0, j as int)),
                    decreases 9 - j,
                {
                    let c = cells[j];
                    assert(square_cells(first as int).subrange(0, j + 1).drop_last() =~= square_cells(first as int).subrange(0, j as int));
                    if self.board[c] == Piece::Empty {
                        r.push(c);
                    }
                    j += 1;
                }
                assert(square_cells(first as int).subrange(0, 9) =~= square_cells(first as int));
            },
            None => {
                let mut i: usize = 0;
                while i < 81
                    invariant
                        i <= 81,
                        self.board@.len() == 81,
                        r@ == empty_among(self.board@, Seq::new(i as nat, |k: int| k)),
                    decreases 81 - i,
                {
                    assert(Seq::new((i + 1) as nat, |k: int| k).drop_last() =~= Seq::new(i as nat, |k: int| k));
                    if self.board[i] == Piece::Empty {
                        r.push(i);
                    }
                    i += 1;
                }
            },
        }
        r
    }

    /// The moves allowed now; where the last move's square is full, the constraint
    /// is dropped for good and any empty cell is allowed.
    pub fn valid_moves(&mut self) -> (r: Vec<usize>)
        requires
            old(self).wf(),
        ensures
            final(self).wf(),
            r@ == allowed_moves(old(self).cells(), old(self).last()),
            final(self).cells() == old(self).cells(),
            final(self).to_move() == old(self).to_move(),
            final(self).last() == if moves_spec(old(self).cells(), old(self).last()).len() == 0 {
                None
            } else {
                old(self).last()
            },
    {
        let res = self.moves();
        if res.len() == 0 {
            self.last_move = None;
            self.moves()
        } else {
            res
        }
    }

    /// Plays the piece to move on `p`. Fails with `OutOfBound` when the cell number
    /// of `p` is 81 or more, with `PieceNotAllowd` (carrying what is there) when the
    /// cell is taken, and with `NotAValidMove` when the last move sends the player to
    /// another square. Otherwise the other player moves next, and the move constrains
    /// the next one unless the square it was played in has a winner once the new
    /// piece is on the board (the winner is looked for after the move, so the move
    /// that wins a square frees the next player).
    pub fn place_next_piece(self, p: Position) -> (r: Result<TicTacToe, TicTacToeError>)
        requires
            self.wf(),
        ensures
            index_of(p) >= 81 <==> r matches Err(TicTacToeError::OutOfBound(_)),
            (index_of(p) < 81 && self.cells()[index_of(p)] != Piece::Empty) <==> r matches Err(
                TicTacToeError::PieceNotAllowd(_),
            ),
            r matches Err(TicTacToeError::PieceNotAllowd(PieceNotAllowd(x))) ==> x == self.cells()[index_of(p)],
            (index_of(p) < 81 && self.cells()[index_of(p)] == Piece::Empty && !allowed_moves(
                self.cells(),
                self.last(),
            ).contains(index_of(p) as usize)) <==> r matches Err(TicTacToeError::NotAValidMove(_)),
            r matches Err(TicTacToeError::NotAValidMove(NotAValidMove(q, vm))) ==> {
                &&& q == position_of(index_of(p))
                &&& vm@ == allowed_moves(self.cells(), self.last()).map_values(|c: usize| position_of(c as int))
            },
            r matches Ok(t) ==> {
                let i = index_of(p);
                let cells = self.cells().update(i, self.to_move());
                let first = Position(((i % 9) / 3 * 3) as usize, ((i / 9) / 3 * 3) as usize);
                &&& t.wf()
                &&& t.cells() == cells
                &&& t.to_move() == next_spec(self.to_move())
                &&& t.last() == if local_winner(cells, index_of(first)) != Piece::Empty {
                    None
                } else {
                    Some(position_of(i))
                }
            },
    {
        let mut game = self;
        if p.1 >= 9 || p.0 >= 81 {
            return Err(TicTacToeError::OutOfBound(OutOfBound));
        }
        let pos = p.index();
        if pos >= 81 {
            return Err(TicTacToeError::OutOfBound(OutOfBound));
        }
        if game.board[pos] != Piece::Empty {
            return Err(TicTacToeError::PieceNotAllowd(PieceNotAllowd(game.board[pos])));
        }
        let vm = game.valid_moves();
        let mut found = false;
        let mut j: usize = 0;
        while j < vm.len()
            invariant
                j <= vm@.len(),
                found <==> exists|m: int| 0 <= m < j && vm@[m] == pos,
            decreases vm@.len() - j,
        {
            if vm[j] == pos {
                found = true;
            }
            j += 1;
        }
        assert(found <==> vm@.contains(pos));
        if !found {
            let mut allowed: Vec<Position> = Vec::new();
            let mut k: usize = 0;
            while k < vm.len()
                invariant
                    k <= vm@.len(),
                    allowed@ == vm@.subrange(0, k as int).map_values(|c: usize| position_of(c as int)),
                decreases vm@.len() - k,
            {
                allowed.push(Position::from_index(vm[k]));
                k += 1;
                assert(allowed@ =~= vm@.subrange(0, k as int).map_values(|c: usize| position_of(c as int)));
            }
            assert(vm@.subrange(0, vm@.len() as int) =~= vm@);
            return Err(TicTacToeError::NotAValidMove(NotAValidMove(Position::from_index(pos), allowed)));
        }
        let n = game.next_piece;
        game.board.set(pos, n);
        game.next_piece = n.next();
        let here = Position::from_index(pos);
        let full = game.check_square_full(here.get_first());
        game.last_move = if full { None } else { Some(here) };
        Ok(game)
    }

    /// The game's invariant: 81 cells, a player to move, and a last move on the board.
    pub open spec fn wf(&self) -> bool {
        &&& self.cells().len() == 81
        &&& self.to_move() != Piece::Empty
        &&& self.last() matches Some(p) ==> p.0 < 9 && p.1 < 9
    }
}

} // verus!
