//! The search engine: a tree of statistics that is trained by repeated search
//! steps and advanced by one ply whenever a real move is made.
use vstd::prelude::*;
use rand::rngs::StdRng;
use crate::game::GameTest;
use crate::node::{rolled_out, Tree, wf, grows, node_at, selection, expanded, is_best_index, render, replay, bumped, consistent, lemma_bumped_consistent};
use crate::random::{entropy_rng, seeded_rng};
use crate::text::{padded, push_padded, chars_to_string};

verus! {

/// A Monte-Carlo tree search engine: the tree for the current position and the
/// number of search steps run so far, which normalises the exploration bonus.
pub struct MCTS {
    pub tree: Tree,
    pub tot_step: u32,
    pub rng: StdRng,
}

/// `i` is the first child of `t` whose action is `a`.
pub open spec fn first_with_action(t: Tree, a: usize, i: int) -> bool {
    &&& 0 <= i < t.children.len()
    &&& t.children[i].action == a
    &&& forall|j: int| 0 <= j < i ==> (#[trigger] t.children[j]).action != a
}

/// The actions that a search step gives the frontier of `t`: those legal in the
/// state that replaying the selected path from `s` reaches.
pub open spec fn frontier_actions<T: GameTest>(t: Tree, total: nat, s: T::State) -> Seq<usize> {
    T::legal_in(replay::<T>(s, t, selection(t, total)))
}

/// What one search step from a position in state `s` does to a tree `t0` after
/// `n0` steps, giving `t1` after `n1` steps: either the step runs, the frontier of
/// the selected path gets one once-played child per action legal there and the
/// root counts that many more plays, each new child holding the record of one
/// rollout from the frontier's state; or it would overflow a counter and nothing
/// changes.
pub open spec fn search_step<T: GameTest>(t0: Tree, n0: u32, t1: Tree, n1: u32, s: T::State) -> bool {
    let sel = selection(t0, n0 as nat);
    let acts = frontier_actions::<T>(t0, n0 as nat, s);
    &&& grows(t0, t1)
    &&& (n1 == n0 + 1 <==> (n0 < u32::MAX && t0.plays + acts.len() <= u32::MAX))
    &&& n1 == n0 + 1 ==> {
        &&& bumped(t0, t1, sel, acts.len() as int, t1.wins - t0.wins, acts)
        &&& expanded(node_at(t0, sel), node_at(t1, sel), acts)
        &&& t1.plays == t0.plays + acts.len()
        &&& forall|k: int| node_at(t0, sel).children.len() <= k < node_at(t1, sel).children.len()
            ==> rolled_out::<T>(#[trigger] node_at(t1, sel).children[k], replay::<T>(s, t0, sel))
    }
    &&& n1 != n0 + 1 ==> n1 == n0 && t1 == t0
}

/// What the engine's own move does to tree `t0`, which has children, giving `t1`
/// and returning `a`: the child with the best win ratio becomes the root and its
/// action is returned.
pub open spec fn best_move_step(t0: Tree, t1: Tree, a: usize) -> bool {
    exists|i: int| {
        &&& #[trigger] is_best_index(t0.children@, i)
        &&& t1 == t0.children[i]
        &&& a == t0.children[i].action
    }
}

impl MCTS {
    /// The engine's invariant: its tree is well formed.
    pub open spec fn wf(&self) -> bool {
        wf(self.tree)
    }

    fn with_rng(rng: StdRng) -> (r: MCTS)
        ensures
            r.wf(),
            r.tree.children.len() == 0,
            r.tree.plays == 0,
            r.tree.wins == 0,
            r.tot_step == 0,
    {
        MCTS { tree: Tree::new(0), tot_step: 0, rng }
    }

    /// A fresh engine whose rollouts draw from an operating-system-seeded generator,
    /// or, where the system gives no entropy, from a generator seeded with zero.
    pub fn new() -> (r: MCTS)
        ensures
            r.wf(),
            r.tree.children.len() == 0,
            r.tree.plays == 0,
            r.tree.wins == 0,
            r.tot_step == 0,
    {
        match entropy_rng() {
            Some(rng) => MCTS::with_rng(rng),
            None => MCTS::with_rng(seeded_rng(0)),
        }
    }

    /// A fresh engine whose rollouts draw from a generator seeded with `seed`, so
    /// that runs with one seed draw the same actions.
    pub fn with_seed(seed: u64) -> (r: MCTS)
        ensures
            r.wf(),
            r.tree.children.len() == 0,
            r.tree.plays == 0,
            r.tree.wins == 0,
            r.tot_step == 0,
    {
        MCTS::with_rng(seeded_rng(seed))
    }

    /// One search step from the position `g`: selection by UCB1 on a copy of `g`,
    /// expansion of the frontier with the copy's legal actions, one random rollout
    /// per new child, and backpropagation of the counts along the selected path.
    /// `g` itself is left as it was. A step that would overflow a counter is not
    /// run, and then the engine is unchanged.
    pub fn train<T: GameTest>(&mut self, g: &mut T)
        requires
            old(self).wf(),
        ensures
            final(self).wf(),
            *final(g) == *old(g),
            search_step::<T>(old(self).tree, old(self).tot_step, final(self).tree, final(self).tot_step, old(g).state()),
            consistent::<T>(old(self).tree, old(g).state()) ==> consistent::<T>(final(self).tree, old(g).state()),
            old(self).tree.children.len() == 0 && final(self).tot_step == old(self).tot_step + 1 ==> expanded(
                old(self).tree,
                final(self).tree,
                T::legal_in(old(g).state()),
            ),
    {
        let mut scratch = g.duplicate();
        let mut path: Vec<usize> = Vec::new();
        self.tree.select(&mut scratch, self.tot_step, &mut path);
        assert(path@ =~= selection(self.tree, self.tot_step as nat));
        let actions = scratch.valid_actions();
        if self.tot_step == u32::MAX || actions.len() as u64 > (u32::MAX - self.tree.plays) as u64 {
            proof {
                crate::node::lemma_grows_refl(self.tree);
            }
            return;
        }
        let ghost before = self.tree;
        proof {
            assert(path@.subrange(0, path@.len() as int) =~= path@);
            if before.children.len() == 0 {
                assert(path@.len() == 0);
            }
        }
        let _counts = self.tree.grow(&path, 0, &actions, &scratch, &mut self.rng);
        self.tot_step = self.tot_step + 1;
        proof {
            let sel = selection(before, old(self).tot_step as nat);
            assert(expanded(node_at(before, sel), node_at(self.tree, sel), actions@));
            if before.children.len() == 0 {
                assert(sel.len() == 0);
                assert(node_at(before, sel) == before);
                assert(node_at(self.tree, sel) == self.tree);
                assert(actions@ == T::legal_in(old(g).state()));
            }
            if consistent::<T>(before, old(g).state()) {
                lemma_bumped_consistent::<T>(before, self.tree, old(g).state(), sel, _counts.0 as int, _counts.1 as int);
            }
        }
    }

    /// Makes child `index` of the root the new root, dropping the rest of the tree.
    fn update(&mut self, index: usize)
        requires
            old(self).wf(),
            index < old(self).tree.children.len(),
        ensures
            final(self).wf(),
            final(self).tree == old(self).tree.children[index as int],
            final(self).tot_step == old(self).tot_step,
    {
        proof {
            assert(wf(self.tree.children[index as int]));
        }
        let child = self.tree.update_tree(index);
        self.tree = child;
    }

    /// Advances the tree by an action chosen outside the engine (an opponent's
    /// move): applies `play` to `g` and makes the first child of the root reached by
    /// `play` the new root. Some child must carry `play`: a tree out of step with
    /// the game is the caller's error.
    pub fn apply_ext<T: GameTest>(&mut self, g: &mut T, play: usize)
        requires
            old(self).wf(),
            exists|i: int| 0 <= i < old(self).tree.children.len() && (#[trigger] old(self).tree.children[i]).action == play,
        ensures
            final(self).wf(),
            final(self).tot_step == old(self).tot_step,
            exists|i: int| #[trigger] first_with_action(old(self).tree, play, i) && final(self).tree == old(self).tree.children[i],
            final(g).state() == T::after(old(g).state(), play),
            consistent::<T>(old(self).tree, old(g).state()) ==> consistent::<T>(final(self).tree, final(g).state()),
    {
        let mut i: usize = 0;
        while i < self.tree.children.len()
            invariant
                i <= self.tree.children.len(),
                self.wf(),
                self.tree == old(self).tree,
                self.tot_step == old(self).tot_step,
                *g == *old(g),
                forall|j: int| 0 <= j < i ==> (#[trigger] self.tree.children[j]).action != play,
            decreases self.tree.children.len() - i,
        {
            if self.tree.children[i].action == play {
                assert(first_with_action(self.tree, play, i as int));
                proof {
                    if consistent::<T>(self.tree, g.state()) {
                        assert(self.tree.children.len() > 0);
                        assert(consistent::<T>(self.tree.children[i as int], T::after(g.state(), play)));
                    }
                }
                let _ = g.play(play);
                self.update(i);
                return;
            }
            i += 1;
        }
    }

    /// Advances the tree by its own choice: makes the root's child with the best
    /// observed win ratio (see `Tree::best_child_index`) the new root, applies its
    /// action to `g` and returns it. The root must have children.
    pub fn commit_best_move<T: GameTest>(&mut self, g: &mut T) -> (a: usize)
        requires
            old(self).wf(),
            old(self).tree.children.len() > 0,
        ensures
            final(self).wf(),
            final(self).tot_step == old(self).tot_step,
            best_move_step(old(self).tree, final(self).tree, a),
            final(g).state() == T::after(old(g).state(), a),
            consistent::<T>(old(self).tree, old(g).state()) ==> {
                &&& T::legal_in(old(g).state()).contains(a)
                &&& consistent::<T>(final(self).tree, final(g).state())
            },
    {
        let i = self.tree.best_child_index();
        let a = self.tree.children[i].action;
        proof {
            if consistent::<T>(self.tree, g.state()) {
                assert(self.tree.children[i as int].action == T::legal_in(g.state())[i as int]);
                assert(consistent::<T>(self.tree.children[i as int], T::after(g.state(), a)));
            }
        }
        let _ = g.play(a);
        self.update(i);
        a
    }

    /// The tree as text: the root's wins and plays, then its children as
    /// `Tree::fmt` draws them at level 1.
    pub fn describe(&self) -> (r: String)
        ensures
            r@ == seq![' ', '@', ':'] + padded(self.tree.wins as nat) + seq!['/'] + padded(self.tree.plays as nat)
                + seq!['-', '-'] + render(self.tree, 1),
    {
        let mut out: Vec<char> = Vec::new();
        out.push(' ');
        out.push('@');
        out.push(':');
        push_padded(self.tree.wins as usize, &mut out);
        out.push('/');
        push_padded(self.tree.plays as usize, &mut out);
        out.push('-');
        out.push('-');
        let ghost head = out@;
        self.tree.render_into(1, &mut out);
        assert(out@ =~= head + render(self.tree, 1));
        chars_to_string(&out)
    }

    /// One search step from `g` (see `train`), then the engine's own move (see
    /// `commit_best_move`); returns the action played. The position must leave the
    /// engine a move: the root has children, or the step gives it some.
    pub fn play_best_move<T: GameTest>(&mut self, g: &mut T) -> (a: usize)
        requires
            old(self).wf(),
            old(self).tree.children.len() > 0 || (T::legal_in(old(g).state()).len() > 0
                && old(self).tot_step < u32::MAX
                && old(self).tree.plays + T::legal_in(old(g).state()).len() <= u32::MAX),
        ensures
            final(self).wf(),
            exists|t: Tree, n: u32| {
                &&& #[trigger] search_step::<T>(old(self).tree, old(self).tot_step, t, n, old(g).state())
                &&& best_move_step(t, final(self).tree, a)
                &&& final(self).tot_step == n
            },
            final(g).state() == T::after(old(g).state(), a),
            consistent::<T>(old(self).tree, old(g).state()) ==> {
                &&& T::legal_in(old(g).state()).contains(a)
                &&& consistent::<T>(final(self).tree, final(g).state())
            },
    {
        self.train(g);
        let ghost (t, n) = (self.tree, self.tot_step);
        assert(self.tree.children.len() > 0) by {
            if old(self).tree.children.len() > 0 {
                assert(grows(old(self).tree, self.tree));
            } else {
                assert(expanded(old(self).tree, self.tree, T::legal_in(old(g).state())));
            }
        }
        let a = self.commit_best_move(g);
        assert(search_step::<T>(old(self).tree, old(self).tot_step, t, n, old(g).state()));
        a
    }
}

} // verus!
