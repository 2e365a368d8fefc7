//! Plain tic-tac-toe on a 3x3 board, and a two-player match over it that the
//! search can play.
use vstd::prelude::*;
use crate::game::{GameTest, PlayRes};
use crate::text::chars_to_string;

verus! {

/// The content of one cell.
#[derive(Clone, Copy, PartialEq, Eq, Structural, Debug)]
pub enum Check {
    Empty,
    X,
    O,
}

/// A 3x3 board, cells numbered row by row from 0 to 8.
#[derive(Clone)]
pub struct Game {
    b: Vec<Check>,
}

/// The winner that the first complete line shows, checking rows, then columns, then
/// diagonals; a line of three empty cells counts as complete and shows `Empty`.
pub open spec fn line_winner(b: Seq<Check>) -> Check {
    if b[0] == b[1] && b[0] == b[2] {
        b[0]
    } else if b[3] == b[4] && b[3] == b[5] {
        b[3]
    } else if b[6] == b[7] && b[6] == b[8] {
        b[6]
    } else if b[0] == b[3] && b[0] == b[6] {
        b[0]
    } else if b[1] == b[4] && b[1] == b[7] {
        b[1]
    } else if b[2] == b[5] && b[2] == b[8] {
        b[2]
    } else if b[0] == b[4] && b[0] == b[8] {
        b[0]
    } else if b[2] == b[4] && b[2] == b[6] {
        b[2]
    } else {
        Check::Empty
    }
}

/// The indices below `n` of the empty cells of `b`, in increasing order.
pub open spec fn empty_upto(b: Seq<Check>, n: nat) -> Seq<usize>
    decreases n,
{
    if n == 0 {
        seq![]
    } else {
        let rest = empty_upto(b, (n - 1) as nat);
        if b[n - 1] == Check::Empty { rest.push((n - 1) as usize) } else { rest }
    }
}

/// The character that shows a cell.
pub open spec fn symbol(c: Check) -> char {
    match c {
        Check::Empty => '.',
        Check::O => '0',
        Check::X => 'X',
    }
}

/// The first `n` cells of `b` as text: each row begins on a new line.
pub open spec fn shown_upto(b: Seq<Check>, n: nat) -> Seq<char>
    decreases n,
{
    if n == 0 {
        seq![]
    } else {
        let rest = shown_upto(b, (n - 1) as nat);
        let rest = if (n - 1) % 3 == 0 { rest.push('\n') } else { rest };
        rest.push(symbol(b[n - 1]))
    }
}

/// Filling an empty cell removes exactly one cell from the empty ones.
proof fn lemma_fill_empty(b: Seq<Check>, at: int, piece: Check, n: nat)
    requires
        0 <= at < b.len(),
        n <= b.len(),
        b[at] == Check::Empty,
        piece != Check::Empty,
    ensures
        empty_upto(b.update(at, piece), n).len() == empty_upto(b, n).len() - if at < n { 1int } else { 0int },
    decreases n,
{
    if n > 0 {
        lemma_fill_empty(b, at, piece, (n - 1) as nat);
    }
}

/// A match of tic-tac-toe between two players who alternate, seen from one of them:
/// winning lines of that player's piece are wins, those of the other player's are
/// losses. Moving on an occupied or missing cell loses.
pub struct Duel {
    game: Game,
    x_to_move: bool,
    me_x: bool,
}

/// The piece that moves next, or that a side plays.
pub open spec fn piece_of(x: bool) -> Check {
    if x { Check::X } else { Check::O }
}

impl Duel {
    /// A match on an empty board; `x_first` says whether X moves first, `me_x`
    /// whether the outcomes are seen from X.
    pub fn new(x_first: bool, me_x: bool) -> (r: Duel)
        ensures
            r.state() == (Seq::new(9, |i: int| Check::Empty), x_first, me_x),
    {
        Duel { game: Game::new(), x_to_move: x_first, me_x }
    }

    /// The board, for showing.
    pub fn game(&self) -> (r: &Game)
        ensures
            r@ == self.state().0,
    {
        &self.game
    }
}

/// The state of a duel after a move on cell `a`: the piece to move lands there and
/// the turn passes, unless the cell is missing or taken, which changes nothing.
pub open spec fn duel_after(s: (Seq<Check>, bool, bool), a: usize) -> (Seq<Check>, bool, bool) {
    if s.0.len() != 9 || a >= 9 || s.0[a as int] != Check::Empty {
        s
    } else {
        (s.0.update(a as int, piece_of(s.1)), !s.1, s.2)
    }
}

/// The outcome of a move on cell `a` in a duel: a loss when the cell is missing or
/// taken; otherwise, by the winner that the board then shows, a win for the side
/// the outcomes are seen from, a loss for the other side, or nothing yet.
pub open spec fn duel_outcome(s: (Seq<Check>, bool, bool), a: usize) -> PlayRes {
    if s.0.len() != 9 || a >= 9 || s.0[a as int] != Check::Empty {
        PlayRes::Loose
    } else {
        let w = line_winner(s.0.update(a as int, piece_of(s.1)));
        if w == piece_of(s.2) {
            PlayRes::Win
        } else if w != Check::Empty {
            PlayRes::Loose
        } else {
            PlayRes::Nothing
        }
    }
}

impl GameTest for Duel {
    /// The board, whether X moves next, and whether outcomes are seen from X.
    type State = (Seq<Check>, bool, bool);

    closed spec fn state(&self) -> (Seq<Check>, bool, bool) {
        (self.game@, self.x_to_move, self.me_x)
    }

    open spec fn legal_in(s: (Seq<Check>, bool, bool)) -> Seq<usize> {
        empty_upto(s.0, s.0.len())
    }

    open spec fn left_in(s: (Seq<Check>, bool, bool)) -> nat {
        empty_upto(s.0, s.0.len()).len()
    }

    open spec fn after(s: (Seq<Check>, bool, bool), a: usize) -> (Seq<Check>, bool, bool) {
        duel_after(s, a)
    }

    open spec fn outcome(s: (Seq<Check>, bool, bool), a: usize) -> PlayRes {
        duel_outcome(s, a)
    }

    fn play(&mut self, play: usize) -> (r: PlayRes) {
        if self.game.b.len() != 9 || play >= 9 || self.game.b[play] != Check::Empty {
            return PlayRes::Loose;
        }
        let piece = if self.x_to_move { Check::X } else { Check::O };
        proof {
            lemma_fill_empty(self.game@, play as int, piece, 9);
        }
        let w = self.game.play(play, piece);
        self.x_to_move = !self.x_to_move;
        let mine = if self.me_x { Check::X } else { Check::O };
        if w == mine {
            PlayRes::Win
        } else if w != Check::Empty {
            PlayRes::Loose
        } else {
            PlayRes::Nothing
        }
    }

    fn valid_actions(&self) -> (r: Vec<usize>) {
        self.game.valid_moves()
    }

    fn duplicate(&self) -> (r: Duel) {
        let mut b: Vec<Check> = Vec::new();
        let mut i: usize = 0;
        while i < self.game.b.len()
            invariant
                i <= self.game.b@.len(),
                b@ == self.game.b@.subrange(0, i as int),
            decreases self.game.b@.len() - i,
        {
            b.push(self.game.b[i]);
            i += 1;
            assert(b@ =~= self.game.b@.subrange(0, i as int));
        }
        assert(b@ =~= self.game.b@);
        let r = Duel { game: Game { b }, x_to_move: self.x_to_move, me_x: self.me_x };
        assert(r.game@ == self.game@);
        r
    }
}

impl View for Game {
    type V = Seq<Check>;

    closed spec fn view(&self) -> Seq<Check> {
        self.b@
    }
}

impl Game {
    /// An empty board.
    pub fn new() -> (r: Game)
        ensures
            r@ == Seq::new(9, |i: int| Check::Empty),
    {
        let mut b: Vec<Check> = Vec::new();
        let mut i: usize = 0;
        while i < 9
            invariant
                i <= 9,
                b@ == Seq::new(i as nat, |k: int| Check::Empty),
            decreases 9 - i,
        {
            b.push(Check::Empty);
            i += 1;
            assert(b@ =~= Seq::new(i as nat, |k: int| Check::Empty));
        }
        Game { b }
    }

    /// The board as text: three lines of `.`, `X` and `0`, each after a line break.
    pub fn show(&self) -> (r: String)
        ensures
            r@ == shown_upto(self@, self@.len()),
    {
        let mut cs: Vec<char> = Vec::new();
        let mut i: usize = 0;
        while i < self.b.len()
            invariant
                i <= self.b@.len(),
                cs@ == shown_upto(self.b@, i as nat),
            decreases self.b@.len() - i,
        {
            if i % 3 == 0 {
                cs.push('\n');
            }
            let c = match self.b[i] {
                Check::Empty => '.',
                Check::O => '0',
                Check::X => 'X',
            };
            cs.push(c);
            i += 1;
        }
        chars_to_string(&cs)
    }

    /// Puts `piece` on cell `at` and returns the winner that the board then shows.
    pub fn play(&mut self, at: usize, piece: Check) -> (r: Check)
        requires
            old(self)@.len() == 9,
            at < 9,
        ensures
            final(self)@ == old(self)@.update(at as int, piece),
            r == line_winner(final(self)@),
    {
        self.place(at, piece).check_win()
    }

    /// Puts `piece` on cell `at`, whatever was there.
    pub fn place(&mut self, at: usize, piece: Check) -> (r: &mut Game)
        requires
            at < old(self)@.len(),
        ensures
            (*r)@ == old(self)@.update(at as int, piece),
            *final(self) == *final(r),
    {
        self.b.set(at, piece);
        self
    }

    /// The winner that the board shows; see `line_winner`.
    pub fn check_win(&self) -> (r: Check)
        requires
            self@.len() == 9,
        ensures
            r == line_winner(self@),
    {
        let b = &self.b;
        if b[0] == b[1] && b[0] == b[2] {
            b[0]
        } else if b[3] == b[4] && b[3] == b[5] {
            b[3]
        } else if b[6] == b[7] && b[6] == b[8] {
            b[6]
        } else if b[0] == b[3] && b[0] == b[6] {
            b[0]
        } else if b[1] == b[4] && b[1] == b[7] {
            b[1]
        } else if b[2] == b[5] && b[2] == b[8] {
            b[2]
        } else if b[0] == b[4] && b[0] == b[8] {
            b[0]
        } else if b[2] == b[4] && b[2] == b[6] {
            b[2]
        } else {
            Check::Empty
        }
    }

    /// The empty cells, in increasing order.
    pub fn valid_moves(&self) -> (r: Vec<usize>)
        ensures
            r@ == empty_upto(self@, self@.len()),
    {
        let mut r: Vec<usize> = Vec::new();
        let mut i: usize = 0;
        while i < self.b.len()
            invariant
                i <= self.b@.len(),
                r@ == empty_upto(self.b@, i as nat),
            decreases self.b@.len() - i,
        {
            if self.b[i] == Check::Empty {
                r.push(i);
            }
            i += 1;
        }
        r
    }
}

} // verus!
