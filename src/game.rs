//! The interface that a game offers to the search.
use vstd::prelude::*;

verus! {

/// Outcome of applying one action to a game, from the perspective of the mover.
pub enum PlayRes {
    Nothing,
    Win,
    Loose,
}

/// A game state that the search can copy, query and advance. The abstract
/// `State` determines the legal actions and the moves left, and each action
/// moves it by `after`.
pub trait GameTest: Sized {
    /// What the search can observe of a position.
    type State;

    /// The observable state of this position.
    spec fn state(&self) -> Self::State;

    /// The actions that are legal in `s`, in order.
    spec fn legal_in(s: Self::State) -> Seq<usize>;

    /// A bound on the number of actions that can still be applied in `s`.
    spec fn left_in(s: Self::State) -> nat;

    /// The state that applying `a` in `s` leads to.
    spec fn after(s: Self::State, a: usize) -> Self::State;

    /// The outcome of applying `a` in `s`, for the player who applies it.
    spec fn outcome(s: Self::State, a: usize) -> PlayRes;

    /// Applies `play`; an undecided outcome uses up one of the moves left.
    fn play(&mut self, play: usize) -> (r: PlayRes)
        ensures
            final(self).state() == Self::after(old(self).state(), play),
            r == Self::outcome(old(self).state(), play),
            r is Nothing ==> Self::left_in(final(self).state()) < Self::left_in(old(self).state()),
    ;

    /// The actions that are legal in this state; empty once the game is over.
    fn valid_actions(&self) -> (r: Vec<usize>)
        ensures
            r@ == Self::legal_in(self.state()),
    ;

    /// An independent copy of this position.
    fn duplicate(&self) -> (r: Self)
        ensures
            r.state() == self.state(),
    ;
}

} // verus!
