//! Search-tree nodes: visit counters, selection scores and structural updates.
use vstd::prelude::*;
use vstd::arithmetic::power2::{pow2, lemma_pow2_unfold, lemma2_to64};
use rand::rngs::StdRng;
use crate::game::{GameTest, PlayRes};
use crate::random::draw_below;
use crate::text::{padded, push_padded, chars_to_string};

verus! {

/// One decision point of the search, reached from its parent by `action`.
pub struct Tree {
    pub children: Vec<Tree>,
    pub plays: u32,
    pub wins: u32,
    pub action: usize,
}

/// Child `a` is strictly preferred to child `b` by observed win ratio: an unvisited
/// child counts as a ratio of one and wins ties against visited ones; visited
/// children compare `wins / plays` exactly, by cross-multiplication.
pub open spec fn ratio_above(a: Tree, b: Tree) -> bool {
    if a.plays == 0 {
        b.plays != 0
    } else if b.plays == 0 {
        false
    } else {
        a.wins * b.plays > b.wins * a.plays
    }
}

/// `i` is the leftmost index of `cs` that no other entry is preferred to by win ratio.
pub open spec fn is_best_index(cs: Seq<Tree>, i: int) -> bool {
    &&& 0 <= i < cs.len()
    &&& forall|j: int| 0 <= j < cs.len() ==> !ratio_above(#[trigger] cs[j], cs[i])
    &&& forall|j: int| 0 <= j < i ==> ratio_above(cs[i], #[trigger] cs[j])
}

/// If `a` beats `b` and `c` does not beat `b`, then `a` beats `c`.
proof fn lemma_ratio_above_trans(a: Tree, b: Tree, c: Tree)
    requires
        ratio_above(a, b),
        !ratio_above(c, b),
    ensures
        ratio_above(a, c),
{
    if a.plays != 0 && c.plays != 0 {
        let (an, ad, bn, bd, cn, cd) = (a.wins as int, a.plays as int, b.wins as int, b.plays as int, c.wins as int, c.plays as int);
        assert(an * bd * cd > bn * ad * cd) by (nonlinear_arith)
            requires an * bd > bn * ad, cd > 0;
        assert(cn * bd * ad <= bn * cd * ad) by (nonlinear_arith)
            requires cn * bd <= bn * cd, ad > 0;
        assert(an * cd * bd > cn * ad * bd) by (nonlinear_arith)
            requires an * bd * cd > bn * ad * cd, cn * bd * ad <= bn * cd * ad;
        assert(an * cd > cn * ad) by (nonlinear_arith)
            requires an * cd * bd > cn * ad * bd, bd > 0;
    }
}

/// Fixed-point scale of the exploration scores: one unit of score is `SCALE`.
pub const SCALE: u64 = 65536;

/// The natural logarithm of two, in units of `1 / SCALE`.
pub const LN2_SCALED: u64 = 45426;

/// Number of times `t` can be halved before it drops below two.
pub open spec fn log2_floor(t: nat) -> nat
    decreases t,
{
    if t <= 1 { 0 } else { 1 + log2_floor(t / 2) }
}

/// Natural logarithm of `t`, scaled by `SCALE`: the integer part of log2 plus the
/// linear interpolation of the remainder, times ln 2. Zero for `t <= 1`.
pub open spec fn ln_scaled(t: nat) -> int {
    let k = log2_floor(t) as int;
    let p = pow2(log2_floor(t)) as int;
    let sc = SCALE as int;
    if t <= 1 { 0 } else { ((k * sc + (t - p) * sc / p) * LN2_SCALED as int) / sc }
}

/// `r` is the integer square root of `n`.
pub open spec fn is_isqrt(n: int, r: int) -> bool {
    0 <= r && r * r <= n < (r + 1) * (r + 1)
}

/// The integer square root of `n`.
pub open spec fn isqrt(n: int) -> int {
    choose|r: int| #[trigger] is_isqrt(n, r)
}

/// UCB1 score of a visited child, scaled by `SCALE`, with `ln_t` the scaled
/// logarithm of the total step count: `wins/plays + sqrt(2 ln t / plays)`.
pub open spec fn ucb_score(c: Tree, ln_t: int) -> int {
    c.wins * SCALE as int / c.plays as int + isqrt(2 * ln_t * SCALE as int / c.plays as int)
}

/// Under UCB1 with `total` steps, child `a` is strictly preferred to child `b`;
/// unvisited children are preferred to every visited one.
pub open spec fn explores_above(a: Tree, b: Tree, total: nat) -> bool {
    if a.plays == 0 {
        b.plays != 0
    } else if b.plays == 0 {
        false
    } else {
        ucb_score(a, ln_scaled(total)) > ucb_score(b, ln_scaled(total))
    }
}

/// `i` is the leftmost index of `cs` that no other entry is preferred to under UCB1.
pub open spec fn is_explore_index(cs: Seq<Tree>, i: int, total: nat) -> bool {
    &&& 0 <= i < cs.len()
    &&& forall|j: int| 0 <= j < cs.len() ==> !explores_above(#[trigger] cs[j], cs[i], total)
    &&& forall|j: int| 0 <= j < i ==> explores_above(cs[i], #[trigger] cs[j], total)
}

proof fn lemma_log2_floor_step(x: nat)
    requires
        x > 1,
    ensures
        log2_floor(x) == 1 + log2_floor(x / 2),
{
}

/// Scaled natural logarithm of `t`; see `ln_scaled`.
pub fn ln_fixed(t: u32) -> (r: u64)
    ensures
        r == ln_scaled(t as nat),
        r <= 33 * LN2_SCALED,
{
    if t <= 1 {
        return 0;
    }
    let mut x: u64 = t as u64;
    let mut k: u64 = 0;
    let mut p: u64 = 1;
    proof {
        lemma2_to64();
    }
    while x > 1
        invariant
            p >= 1,
            1 <= x <= t,
            p == pow2(k as nat),
            k <= 32,
            x * p <= t,
            t < (x + 1) * p,
            log2_floor(t as nat) == k + log2_floor(x as nat),
            p <= t,
        decreases x,
    {
        proof {
            lemma_log2_floor_step(x as nat);
            lemma_pow2_unfold((k + 1) as nat);
            assert((x / 2) * (2 * p) <= x * p) by (nonlinear_arith)
                requires x >= 2, p >= 1;
            assert((x + 1) * p <= (x / 2 + 1) * (2 * p)) by (nonlinear_arith)
                requires x >= 2, p >= 1;
            assert(p * 2 <= t) by (nonlinear_arith)
                requires x >= 2, x * p <= t, p >= 1;
            assert(k < 32) by {
                assert(pow2(k as nat) <= u32::MAX);
                if k >= 32 {
                    lemma_pow2_grows(k as nat);
                }
            }
        }
        x = x / 2;
        p = p * 2;
        k = k + 1;
    }
    proof {
        assert(log2_floor(1) == 0);
        assert(t < 2 * p);
        let (ti, pi, sc) = (t as int, p as int, SCALE as int);
        assert((ti - pi) * sc / pi < sc) by (nonlinear_arith)
            requires ti < 2 * pi, pi >= 1, ti >= pi, sc > 0;
    }
    let frac: u64 = (t as u64 - p) * SCALE / p;
    let r: u64 = (k * SCALE + frac) * LN2_SCALED / SCALE;
    assert(r <= 33 * LN2_SCALED) by (nonlinear_arith)
        requires r as int == ((k * SCALE + frac) * LN2_SCALED) as int / SCALE as int, k <= 32, frac < SCALE;
    r
}

proof fn lemma_pow2_grows(k: nat)
    requires
        k >= 32,
    ensures
        pow2(k) > u32::MAX,
    decreases k,
{
    if k == 32 {
        lemma2_to64();
    } else {
        lemma_pow2_grows((k - 1) as nat);
        lemma_pow2_unfold(k);
    }
}

/// Integer square root by bisection, for `n < 2^40`.
pub fn isqrt_fixed(n: u64) -> (r: u64)
    requires
        n < 0x100_0000_0000,
    ensures
        r == isqrt(n as int),
        r * r <= n < (r + 1) * (r + 1),
        r < 0x10_0000,
{
    let mut lo: u64 = 0;
    let mut hi: u64 = 0x10_0000;
    while hi - lo > 1
        invariant
            lo < hi <= 0x10_0000,
            lo * lo <= n,
            n < hi * hi,
        decreases hi - lo,
    {
        let mid: u64 = lo + (hi - lo) / 2;
        assert(mid * mid <= 0x100_0000_0000) by (nonlinear_arith)
            requires mid <= 0x10_0000;
        if mid * mid <= n {
            lo = mid;
        } else {
            hi = mid;
        }
    }
    proof {
        assert(hi == lo + 1);
        lemma_isqrt_unique(n as int, lo as int);
    }
    lo
}

proof fn lemma_isqrt_unique(n: int, r: int)
    requires
        0 <= r,
        r * r <= n < (r + 1) * (r + 1),
    ensures
        isqrt(n) == r,
{
    assert(is_isqrt(n, r));
    let s = isqrt(n);
    assert(0 <= s && s * s <= n < (s + 1) * (s + 1));
    if s < r {
        assert((s + 1) * (s + 1) <= r * r) by (nonlinear_arith)
            requires 0 <= s < r;
    } else if r < s {
        assert((r + 1) * (r + 1) <= s * s) by (nonlinear_arith)
            requires 0 <= r < s;
    }
}

/// Wins never exceed plays, and no child has more plays than its parent, at every node.
pub open spec fn wf(t: Tree) -> bool
    decreases t,
{
    &&& t.wins <= t.plays
    &&& forall|i: int| 0 <= i < t.children.len() ==> (#[trigger] t.children[i]).plays <= t.plays && wf(t.children[i])
}

/// `b` is `a` with counters that only grew and children that were only appended:
/// every node of `a` is still at its place in `b`, with the same action.
pub open spec fn grows(a: Tree, b: Tree) -> bool
    decreases a,
{
    &&& a.plays <= b.plays
    &&& a.wins <= b.wins
    &&& a.action == b.action
    &&& a.children.len() <= b.children.len()
    &&& forall|i: int| 0 <= i < a.children.len() ==> grows(#[trigger] a.children[i], b.children[i])
}

/// `p` is a sequence of child indices that can be followed down from `t`.
pub open spec fn valid_path(t: Tree, p: Seq<usize>) -> bool
    decreases p.len(),
{
    p.len() == 0 || (p[0] < t.children.len() && valid_path(t.children[p[0] as int], p.drop_first()))
}

/// The node reached from `t` by following `p`.
pub open spec fn node_at(t: Tree, p: Seq<usize>) -> Tree
    decreases p.len(),
{
    if p.len() == 0 || p[0] >= t.children.len() { t } else { node_at(t.children[p[0] as int], p.drop_first()) }
}

/// The child that UCB1 picks among `cs` with `total` steps.
pub open spec fn explore_choice(cs: Seq<Tree>, total: nat) -> int {
    choose|i: int| #[trigger] is_explore_index(cs, i, total)
}

/// The state reached from `s` by the actions of the children along path `p` from `t`.
pub open spec fn replay<T: GameTest>(s: T::State, t: Tree, p: Seq<usize>) -> T::State
    decreases p.len(),
{
    if p.len() == 0 || p[0] >= t.children.len() {
        s
    } else {
        replay::<T>(T::after(s, t.children[p[0] as int].action), t.children[p[0] as int], p.drop_first())
    }
}

/// `acts` is a rollout from state `s` that ends with result `won`: each action is
/// legal where it is played and every outcome but the last is undecided; the last
/// outcome is a win exactly when `won`. An empty rollout means that no action was
/// legal, which is a loss.
pub open spec fn rollout_from<T: GameTest>(s: T::State, acts: Seq<usize>, won: bool) -> bool
    decreases acts.len(),
{
    if acts.len() == 0 {
        T::legal_in(s).len() == 0 && !won
    } else {
        let a = acts[0];
        &&& T::legal_in(s).contains(a)
        &&& match T::outcome(s, a) {
            PlayRes::Nothing => rollout_from::<T>(T::after(s, a), acts.drop_first(), won),
            PlayRes::Win => acts.len() == 1 && won,
            PlayRes::Loose => acts.len() == 1 && !won,
        }
    }
}

/// How many of `cs[lo..hi]` have exactly one win.
pub open spec fn wins_from(cs: Seq<Tree>, lo: int, hi: int) -> nat
    decreases hi - lo,
{
    if hi <= lo {
        0
    } else {
        wins_from(cs, lo, hi - 1) + if cs[hi - 1].wins == 1 { 1nat } else { 0nat }
    }
}

proof fn lemma_wins_from_update(cs: Seq<Tree>, lo: int, hi: int, k: int, x: Tree)
    requires
        0 <= lo,
        hi <= k < cs.len(),
    ensures
        wins_from(cs.update(k, x), lo, hi) == wins_from(cs, lo, hi),
    decreases hi - lo,
{
    if hi > lo {
        lemma_wins_from_update(cs, lo, hi - 1, k, x);
    }
}

/// `b` is `a` after one search step along path `p` that added `n` plays and `w`
/// wins: every node on the path gained exactly `n` plays and `w` wins; the node at
/// the end of the path gained the children of `expanded`, of which exactly `w`
/// won their rollout; every other node is unchanged.
pub open spec fn bumped(a: Tree, b: Tree, p: Seq<usize>, n: int, w: int, acts: Seq<usize>) -> bool
    decreases p.len(),
{
    &&& b.plays == a.plays + n
    &&& b.wins == a.wins + w
    &&& b.action == a.action
    &&& if p.len() == 0 {
        &&& expanded(a, b, acts)
        &&& w == wins_from(b.children@, a.children.len() as int, b.children.len() as int)
    } else {
        &&& p[0] < a.children.len()
        &&& b.children.len() == a.children.len()
        &&& forall|j: int| 0 <= j < a.children.len() && j != p[0] ==> #[trigger] b.children[j] == a.children[j]
        &&& bumped(a.children[p[0] as int], b.children[p[0] as int], p.drop_first(), n, w, acts)
    }
}

/// Every expanded node of `t`, reached from state `s`, has exactly one child per
/// action legal in its state, in order, and its children are consistent with the
/// states that their actions lead to.
pub open spec fn consistent<T: GameTest>(t: Tree, s: T::State) -> bool
    decreases t,
{
    t.children.len() == 0 || {
        &&& t.children.len() == T::legal_in(s).len()
        &&& forall|i: int| 0 <= i < t.children.len() ==> {
            &&& (#[trigger] t.children[i]).action == T::legal_in(s)[i]
            &&& consistent::<T>(t.children[i], T::after(s, t.children[i].action))
        }
    }
}

/// A tree without children, such as a fresh engine's, is consistent with every game
/// state; search steps and advances then keep it so, which ties every move the
/// engine plays to the actions legal when it plays it.
pub proof fn lemma_fresh_consistent<T: GameTest>(t: Tree, s: T::State)
    requires
        t.children.len() == 0,
    ensures
        consistent::<T>(t, s),
{
}

/// A search step keeps a tree consistent with its game: the frontier, which had no
/// children, receives exactly the actions legal in its state.
pub proof fn lemma_bumped_consistent<T: GameTest>(t0: Tree, t1: Tree, s: T::State, p: Seq<usize>, n: int, w: int)
    requires
        consistent::<T>(t0, s),
        bumped(t0, t1, p, n, w, T::legal_in(replay::<T>(s, t0, p))),
        node_at(t0, p).children.len() == 0,
    ensures
        consistent::<T>(t1, s),
    decreases p.len(),
{
    let acts = T::legal_in(replay::<T>(s, t0, p));
    if p.len() == 0 {
        assert(t1.children.len() == acts.len());
        assert forall|i: int| 0 <= i < t1.children.len() implies {
            &&& (#[trigger] t1.children[i]).action == T::legal_in(s)[i]
            &&& consistent::<T>(t1.children[i], T::after(s, t1.children[i].action))
        } by {
            assert(t1.children[0 + i].action == acts[i]);
        }
    } else {
        let i = p[0] as int;
        let a = t0.children[i].action;
        assert(replay::<T>(s, t0, p) == replay::<T>(T::after(s, a), t0.children[i], p.drop_first()));
        assert(node_at(t0, p) == node_at(t0.children[i], p.drop_first()));
        assert(bumped(t0.children[i], t1.children[i], p.drop_first(), n, w, acts));
        lemma_bumped_consistent::<T>(t0.children[i], t1.children[i], T::after(s, a), p.drop_first(), n, w);
        assert forall|j: int| 0 <= j < t1.children.len() implies {
            &&& (#[trigger] t1.children[j]).action == T::legal_in(s)[j]
            &&& consistent::<T>(t1.children[j], T::after(s, t1.children[j].action))
        } by {
            assert(t0.children.len() > 0);
            assert(t0.children[j].action == T::legal_in(s)[j]);
            assert(consistent::<T>(t0.children[j], T::after(s, t0.children[j].action)));
            if j != i {
                assert(t1.children[j] == t0.children[j]);
            } else {
                assert(bumped(t0.children[i], t1.children[i], p.drop_first(), n, w, acts));
                assert(t1.children[i].action == a);
            }
        }
    }
}

/// The state that playing `acts` in order from `s` reaches.
pub open spec fn rollout_end<T: GameTest>(s: T::State, acts: Seq<usize>) -> T::State
    decreases acts.len(),
{
    if acts.len() == 0 { s } else { rollout_end::<T>(T::after(s, acts[0]), acts.drop_first()) }
}

/// Node `c` holds the record of one rollout from state `s`: it won exactly when
/// `c` has one win.
pub open spec fn rolled_out<T: GameTest>(c: Tree, s: T::State) -> bool {
    exists|acts: Seq<usize>| #[trigger] rollout_from::<T>(s, acts, has_won(c))
}

/// Node `c` has exactly one win.
pub open spec fn has_won(c: Tree) -> bool {
    c.wins == 1
}

/// The path that selection follows from `t`: UCB1 choices down to a node without children.
pub open spec fn selection(t: Tree, total: nat) -> Seq<usize>
    decreases t,
{
    if t.children.len() == 0 {
        seq![]
    } else {
        let i = explore_choice(t.children@, total);
        if 0 <= i < t.children.len() {
            seq![i as usize] + selection(t.children[i], total)
        } else {
            seq![]
        }
    }
}

/// `t` is an unvisited node without children, reached by action `a`.
pub open spec fn is_fresh(t: Tree, a: usize) -> bool {
    t.children.len() == 0 && t.plays == 0 && t.wins == 0 && t.action == a
}

/// `cs` is `before` followed by one fresh node per action of `acts`, in order.
pub open spec fn appended_fresh(before: Seq<Tree>, cs: Seq<Tree>, acts: Seq<usize>) -> bool {
    &&& cs.len() == before.len() + acts.len()
    &&& cs.subrange(0, before.len() as int) == before
    &&& forall|k: int| 0 <= k < acts.len() ==> is_fresh(#[trigger] cs[before.len() + k], acts[k])
}

/// `b` is `a` with one new, once-played, childless child per action of `acts`,
/// appended in order after the children that `a` had.
pub open spec fn expanded(a: Tree, b: Tree, acts: Seq<usize>) -> bool {
    &&& b.children.len() == a.children.len() + acts.len()
    &&& b.children@.subrange(0, a.children.len() as int) == a.children@
    &&& forall|k: int| 0 <= k < acts.len() ==> {
        let c = #[trigger] b.children[a.children.len() + k];
        &&& c.action == acts[k]
        &&& c.plays == 1
        &&& c.wins <= 1
        &&& c.children.len() == 0
    }
}

proof fn lemma_explore_index_unique(cs: Seq<Tree>, i: int, total: nat)
    requires
        is_explore_index(cs, i, total),
    ensures
        explore_choice(cs, total) == i,
{
    let j = explore_choice(cs, total);
    assert(is_explore_index(cs, j, total));
    if j < i {
        assert(explores_above(cs[i], cs[j], total));
        assert(!explores_above(cs[i], cs[j], total));
    } else if i < j {
        assert(explores_above(cs[j], cs[i], total));
        assert(!explores_above(cs[j], cs[i], total));
    }
}

/// Every tree grows into itself.
pub proof fn lemma_grows_refl(t: Tree)
    ensures
        grows(t, t),
    decreases t,
{
    assert forall|i: int| 0 <= i < t.children.len() implies grows(#[trigger] t.children[i], t.children[i]) by {
        lemma_grows_refl(t.children[i]);
    }
}

/// Among children that were all visited, the best index has the greatest
/// `wins / plays` (compared exactly, by cross-multiplication), and every child to
/// its left has a strictly smaller one.
pub proof fn lemma_best_has_max_ratio(cs: Seq<Tree>, i: int)
    requires
        is_best_index(cs, i),
        forall|j: int| 0 <= j < cs.len() ==> (#[trigger] cs[j]).plays > 0,
    ensures
        forall|j: int| 0 <= j < cs.len() ==> (#[trigger] cs[j]).wins * cs[i].plays <= cs[i].wins * cs[j].plays,
        forall|j: int| 0 <= j < i ==> (#[trigger] cs[j]).wins * cs[i].plays < cs[i].wins * cs[j].plays,
{
    assert forall|j: int| 0 <= j < cs.len() implies (#[trigger] cs[j]).wins * cs[i].plays <= cs[i].wins * cs[j].plays by {
        assert(!ratio_above(cs[j], cs[i]));
    }
    assert forall|j: int| 0 <= j < i implies (#[trigger] cs[j]).wins * cs[i].plays < cs[i].wins * cs[j].plays by {
        assert(ratio_above(cs[i], cs[j]));
    }
}

/// The child with the best observed win ratio among `cs`.
pub open spec fn best_choice(cs: Seq<Tree>) -> int {
    choose|i: int| #[trigger] is_best_index(cs, i)
}

/// The path of best children from `t` down to a node without children.
pub open spec fn best_path(t: Tree) -> Seq<usize>
    decreases t,
{
    if t.children.len() == 0 {
        seq![]
    } else {
        let i = best_choice(t.children@);
        if 0 <= i < t.children.len() {
            seq![i as usize] + best_path(t.children[i])
        } else {
            seq![]
        }
    }
}

proof fn lemma_best_index_unique(cs: Seq<Tree>, i: int)
    requires
        is_best_index(cs, i),
    ensures
        best_choice(cs) == i,
{
    let j = best_choice(cs);
    assert(is_best_index(cs, j));
    if j < i {
        assert(ratio_above(cs[i], cs[j]));
        assert(!ratio_above(cs[i], cs[j]));
    } else if i < j {
        assert(ratio_above(cs[j], cs[i]));
        assert(!ratio_above(cs[j], cs[i]));
    }
}

/// Selection never passes over an unvisited child: whenever some child has no
/// plays, the child that UCB1 picks has none either, and it is the first such child.
pub proof fn lemma_explore_prefers_unvisited(cs: Seq<Tree>, i: int, total: nat, j: int)
    requires
        is_explore_index(cs, i, total),
        0 <= j < cs.len(),
        cs[j].plays == 0,
    ensures
        cs[i].plays == 0,
        i <= j,
{
    assert(!explores_above(cs[j], cs[i], total));
    if j < i {
        assert(explores_above(cs[i], cs[j], total));
    }
}

/// Growth composes: a tree that grew twice grew from the first to the last, so
/// counters never drop over any number of search steps.
pub proof fn lemma_grows_trans(a: Tree, b: Tree, c: Tree)
    requires
        grows(a, b),
        grows(b, c),
    ensures
        grows(a, c),
    decreases a,
{
    assert forall|i: int| 0 <= i < a.children.len() implies grows(#[trigger] a.children[i], c.children[i]) by {
        lemma_grows_trans(a.children[i], b.children[i], c.children[i]);
    }
}

/// When a tree grows, every node of the old tree keeps its place, its action, and
/// at least its plays and wins.
pub proof fn lemma_grows_at(a: Tree, b: Tree, p: Seq<usize>)
    requires
        grows(a, b),
        valid_path(a, p),
    ensures
        valid_path(b, p),
        node_at(a, p).plays <= node_at(b, p).plays,
        node_at(a, p).wins <= node_at(b, p).wins,
        node_at(a, p).action == node_at(b, p).action,
    decreases p.len(),
{
    if p.len() > 0 {
        let i = p[0] as int;
        assert(grows(a.children[i], b.children[i]));
        lemma_grows_at(a.children[i], b.children[i], p.drop_first());
    }
}

/// In a well-formed tree every node has at most as many wins as plays.
pub proof fn lemma_wf_at(t: Tree, p: Seq<usize>)
    requires
        wf(t),
        valid_path(t, p),
    ensures
        wf(node_at(t, p)),
        node_at(t, p).wins <= node_at(t, p).plays,
        node_at(t, p).plays <= t.plays,
    decreases p.len(),
{
    if p.len() > 0 {
        let i = p[0] as int;
        assert(wf(t.children[i]));
        lemma_wf_at(t.children[i], p.drop_first());
    }
}

/// The rule drawn between levels of the tree text.
pub open spec fn bar() -> Seq<char> {
    seq![' ', '|', ' ', ' ', ' ', ' ', ' ', ' ', ' ', ' ']
}

/// `i` copies of `bar()`.
pub open spec fn indent(i: nat) -> Seq<char>
    decreases i,
{
    if i == 0 { seq![] } else { indent((i - 1) as nat) + bar() }
}

/// The indentation level of the children of a node drawn at level `i`.
pub open spec fn deeper(i: nat) -> nat {
    if i < usize::MAX { i + 1 } else { i }
}

/// The text of the children of `t` drawn at level `i`: per child, its action,
/// wins and plays, its own children one level deeper, and the rule of level `i`.
pub open spec fn render(t: Tree, i: nat) -> Seq<char>
    decreases t, t.children.len() + 1,
{
    render_from(t, i, t.children.len() as int)
}

/// The text of the first `k` children of `t` drawn at level `i`; see `render`.
pub open spec fn render_from(t: Tree, i: nat, k: int) -> Seq<char>
    decreases t, k,
{
    if k <= 0 || k > t.children.len() {
        seq![]
    } else {
        render_from(t, i, k - 1) + entry(t.children[k - 1], i)
    }
}

/// The text of one child `c` drawn at level `i`; see `render`.
pub open spec fn entry(c: Tree, i: nat) -> Seq<char>
    decreases c, c.children.len() + 2,
{
    header(c) + render(c, deeper(i)) + seq!['\n'] + indent(i)
}

/// The counters of one child as text: action, wins and plays.
pub open spec fn header(c: Tree) -> Seq<char> {
    padded(c.action as nat) + seq![':'] + padded(c.wins as nat) + seq!['/'] + padded(c.plays as nat) + seq!['-', '-']
}

/// Appends `header(*c)` to `out`.
fn push_header(c: &Tree, out: &mut Vec<char>)
    ensures
        final(out)@ == old(out)@ + header(*c),
{
    let ghost before = out@;
    push_padded(c.action, out);
    out.push(':');
    push_padded(c.wins as usize, out);
    out.push('/');
    push_padded(c.plays as usize, out);
    out.push('-');
    out.push('-');
    assert(out@ =~= before + header(*c));
}

/// Appends `indent(i)` to `out`.
fn push_indent(i: usize, out: &mut Vec<char>)
    ensures
        final(out)@ == old(out)@ + indent(i as nat),
{
    let mut j: usize = 0;
    while j < i
        invariant
            j <= i,
            out@ == old(out)@ + indent(j as nat),
        decreases i - j,
    {
        let ghost before = out@;
        out.push(' ');
        out.push('|');
        let mut m: usize = 0;
        while m < 8
            invariant
                m <= 8,
                out@ == before + seq![' ', '|'] + Seq::new(m as nat, |q: int| ' '),
            decreases 8 - m,
        {
            out.push(' ');
            m += 1;
            assert(out@ =~= before + seq![' ', '|'] + Seq::new(m as nat, |q: int| ' '));
        }
        j += 1;
        assert(seq![' ', '|'] + Seq::new(8, |q: int| ' ') =~= bar());
        assert(out@ =~= old(out)@ + indent(j as nat));
    }
}

impl Tree {
    /// A fresh, unexpanded node reached by `action`.
    pub fn new(action: usize) -> (r: Tree)
        ensures
            r.children@.len() == 0,
            r.plays == 0,
            r.wins == 0,
            r.action == action,
    {
        Tree { children: Vec::new(), plays: 0, wins: 0, action }
    }



    /// Appends to `path` the indices of the best children (see
    /// `best_child_index`) from this node down to a node without children.
    pub fn path_to_best(&self, path: &mut Vec<usize>)
        ensures
            final(path)@ == old(path)@ + best_path(*self),
            valid_path(*self, best_path(*self)),
        decreases *self,
    {
        if self.children.len() == 0 {
            assert(final(path)@ =~= old(path)@ + best_path(*self));
            return;
        }
        let i = self.best_child_index();
        proof {
            lemma_best_index_unique(self.children@, i as int);
        }
        path.push(i);
        self.children[i].path_to_best(path);
        proof {
            let bp = best_path(*self);
            let rest = best_path(self.children[i as int]);
            assert(bp == seq![i] + rest);
            assert(bp.drop_first() =~= rest);
            assert(final(path)@ =~= old(path)@ + bp);
        }
    }

    /// Descends by UCB1 choices to a node without children, applying each chosen
    /// child's action to `g` and appending the chosen indices to `path`.
    pub fn select<T: GameTest>(&self, g: &mut T, total_step: u32, path: &mut Vec<usize>)
        ensures
            final(path)@ == old(path)@ + selection(*self, total_step as nat),
            valid_path(*self, selection(*self, total_step as nat)),
            final(g).state() == replay::<T>(old(g).state(), *self, selection(*self, total_step as nat)),
            node_at(*self, selection(*self, total_step as nat)).children.len() == 0,
            self.children.len() == 0 ==> *final(g) == *old(g),
        decreases *self,
    {
        if self.children.len() == 0 {
            assert(final(path)@ =~= old(path)@ + selection(*self, total_step as nat));
            return;
        }
        let i = self.explore_index(total_step);
        proof {
            lemma_explore_index_unique(self.children@, i as int, total_step as nat);
        }
        let _ = g.play(self.children[i].action);
        path.push(i);
        self.children[i].select(g, total_step, path);
        proof {
            let sel = selection(*self, total_step as nat);
            let rest = selection(self.children[i as int], total_step as nat);
            assert(sel == seq![i] + rest);
            assert(sel.drop_first() =~= rest);
            assert(final(path)@ =~= old(path)@ + sel);
            assert(sel[0] == i);
            assert(node_at(*self, sel) == node_at(self.children[i as int], rest));
        }
    }

    /// Appends one unvisited child per action, in the order given.
    pub fn expand(&mut self, actions: &Vec<usize>)
        ensures
            appended_fresh(old(self).children@, final(self).children@, actions@),
            final(self).plays == old(self).plays,
            final(self).wins == old(self).wins,
            final(self).action == old(self).action,
    {
        let mut k: usize = 0;
        assert(self.children@.subrange(0, self.children@.len() as int) =~= self.children@);
        while k < actions.len()
            invariant
                k <= actions@.len(),
                appended_fresh(old(self).children@, self.children@, actions@.subrange(0, k as int)),
                self.plays == old(self).plays,
                self.wins == old(self).wins,
                self.action == old(self).action,
            decreases actions@.len() - k,
        {
            let ghost before = self.children@;
            self.children.push(Tree::new(actions[k]));
            assert(self.children@.subrange(0, old(self).children@.len() as int) =~= before.subrange(0, old(self).children@.len() as int));
            k += 1;
        }
        assert(actions@.subrange(0, k as int) =~= actions@);
    }

    /// Plays uniformly random legal actions on `g` until the outcome is decided
    /// or no action is left (a loss), and records the rollout on this node.
    /// Returns whether it was a win.
    pub fn simulate<T: GameTest>(&mut self, g: &mut T, rng: &mut StdRng) -> (r: bool)
        requires
            old(self).plays < u32::MAX,
            old(self).wins <= old(self).plays,
        ensures
            final(self).plays == old(self).plays + 1,
            final(self).wins == old(self).wins + if r { 1int } else { 0int },
            final(self).children == old(self).children,
            final(self).action == old(self).action,
            T::legal_in(old(g).state()).len() == 0 ==> !r && *final(g) == *old(g),
            exists|acts: Seq<usize>| #[trigger] rollout_from::<T>(old(g).state(), acts, r)
                && final(g).state() == rollout_end::<T>(old(g).state(), acts),
        decreases T::left_in(old(g).state()),
    {
        let ghost s0 = g.state();
        let actions = g.valid_actions();
        if actions.len() == 0 {
            self.plays = self.plays + 1;
            assert(rollout_from::<T>(s0, seq![], false));
            assert(rollout_end::<T>(s0, seq![]) == s0);
            return false;
        }
        let i = draw_below(rng, actions.len());
        let a = actions[i];
        assert(T::legal_in(s0).contains(a)) by {
            assert(actions@[i as int] == a);
        }
        match g.play(a) {
            PlayRes::Nothing => {
                let r = self.simulate(g, rng);
                proof {
                    let rest = choose|acts: Seq<usize>| #[trigger] rollout_from::<T>(T::after(s0, a), acts, r)
                        && g.state() == rollout_end::<T>(T::after(s0, a), acts);
                    let all = seq![a] + rest;
                    assert(all[0] == a);
                    assert(all.drop_first() =~= rest);
                    assert(rollout_from::<T>(s0, all, r));
                    assert(rollout_end::<T>(s0, all) == rollout_end::<T>(T::after(s0, a), rest));
                }
                r
            },
            PlayRes::Win => {
                self.plays = self.plays + 1;
                self.wins = self.wins + 1;
                proof {
                    assert(seq![a].drop_first() =~= Seq::<usize>::empty());
                    assert(rollout_from::<T>(s0, seq![a], true));
                    assert(rollout_end::<T>(s0, seq![a]) == rollout_end::<T>(T::after(s0, a), seq![a].drop_first()));
                }
                true
            },
            PlayRes::Loose => {
                self.plays = self.plays + 1;
                proof {
                    assert(seq![a].drop_first() =~= Seq::<usize>::empty());
                    assert(rollout_from::<T>(s0, seq![a], false));
                    assert(rollout_end::<T>(s0, seq![a]) == rollout_end::<T>(T::after(s0, a), seq![a].drop_first()));
                }
                false
            },
        }
    }

    /// Runs one rollout from a copy of `g` for each child from index `from` on,
    /// recording each on its child; returns the number of wins.
    fn simulate_children<T: GameTest>(&mut self, from: usize, g: &T, rng: &mut StdRng) -> (w: u32)
        requires
            from <= old(self).children.len(),
            forall|k: int| from <= k < old(self).children.len() ==> is_fresh(#[trigger] old(self).children[k], old(self).children[k].action),
            old(self).children.len() - from <= u32::MAX,
        ensures
            w <= final(self).children.len() - from,
            w == wins_from(final(self).children@, from as int, final(self).children.len() as int),
            forall|k: int| from <= k < final(self).children.len() ==> rolled_out::<T>(#[trigger] final(self).children[k], g.state()),
            final(self).plays == old(self).plays,
            final(self).wins == old(self).wins,
            final(self).action == old(self).action,
            final(self).children.len() == old(self).children.len(),
            final(self).children@.subrange(0, from as int) == old(self).children@.subrange(0, from as int),
            forall|k: int| from <= k < final(self).children.len() ==> {
                let c = #[trigger] final(self).children[k];
                &&& c.action == old(self).children[k].action
                &&& c.plays == 1
                &&& c.wins <= 1
                &&& c.children.len() == 0
            },
    {
        let mut w: u32 = 0;
        let mut k: usize = from;
        while k < self.children.len()
            invariant
                from <= k <= self.children.len(),
                w <= k - from,
                w == wins_from(self.children@, from as int, k as int),
                forall|m: int| from <= m < k ==> rolled_out::<T>(#[trigger] self.children[m], g.state()),
                old(self).children.len() - from <= u32::MAX,
                forall|m: int| from <= m < old(self).children.len() ==> is_fresh(#[trigger] old(self).children[m], old(self).children[m].action),
                self.plays == old(self).plays,
                self.wins == old(self).wins,
                self.action == old(self).action,
                self.children.len() == old(self).children.len(),
                self.children@.subrange(0, from as int) == old(self).children@.subrange(0, from as int),
                forall|m: int| k <= m < self.children.len() ==> self.children[m] == old(self).children[m],
                forall|m: int| from <= m < k ==> {
                    let c = #[trigger] self.children[m];
                    &&& c.action == old(self).children[m].action
                    &&& c.plays == 1
                    &&& c.wins <= 1
                    &&& c.children.len() == 0
                },
            decreases self.children.len() - k,
        {
            let mut scratch = g.duplicate();
            let ghost before = self.children@;
            assert(is_fresh(old(self).children[k as int], old(self).children[k as int].action));
            assert(before[k as int] == old(self).children[k as int]);
            let ghost s_g = g.state();
            let won = self.children[k].simulate(&mut scratch, rng);
            proof {
                let acts = choose|acts: Seq<usize>| #[trigger] rollout_from::<T>(s_g, acts, won)
                    && scratch.state() == rollout_end::<T>(s_g, acts);
                assert(has_won(self.children[k as int]) == won);
                assert(rollout_from::<T>(s_g, acts, has_won(self.children[k as int])));
            }
            assert(self.children@ == before.update(k as int, self.children[k as int]));
            assert(self.children@.subrange(0, from as int) =~= before.subrange(0, from as int));
            assert forall|m: int| 0 <= m < self.children.len() && m != k implies self.children[m] == #[trigger] before[m] by {}
            assert(rolled_out::<T>(self.children[k as int], g.state()));
            proof {
                lemma_wins_from_update(before, from as int, k as int, k as int, self.children[k as int]);
                assert(wins_from(self.children@, from as int, k + 1) == wins_from(self.children@, from as int, k as int)
                    + if self.children[k as int].wins == 1 { 1nat } else { 0nat });
            }
            if won {
                w = w + 1;
            }
            k += 1;
        }
        w
    }

    /// One search step below this node: follows `path` from position `from` to the
    /// frontier, gives it one child per action of `actions` (the actions legal in
    /// `g`, the frontier's game state), runs one rollout from each new child, and
    /// adds the number of new children and of their winning rollouts to the
    /// counters of every node on the path, this one and the frontier included.
    /// Returns those two numbers. The counts go up the path that was selected, not
    /// along the path of best children (`path_to_best`), so that every node's plays
    /// stay at least those of each of its children.
    pub fn grow<T: GameTest>(&mut self, path: &Vec<usize>, from: usize, actions: &Vec<usize>, g: &T, rng: &mut StdRng) -> (res: (u32, u32))
        requires
            from <= path@.len(),
            valid_path(*old(self), path@.subrange(from as int, path@.len() as int)),
            wf(*old(self)),
            old(self).plays + actions@.len() <= u32::MAX,
        ensures
            res.0 == actions@.len(),
            res.1 <= res.0,
            final(self).plays == old(self).plays + res.0,
            final(self).wins == old(self).wins + res.1,
            wf(*final(self)),
            grows(*old(self), *final(self)),
            from == path@.len() ==> expanded(*old(self), *final(self), actions@),
            bumped(*old(self), *final(self), path@.subrange(from as int, path@.len() as int), res.0 as int, res.1 as int, actions@),
            forall|k: int|
                node_at(*old(self), path@.subrange(from as int, path@.len() as int)).children.len() <= k
                    < node_at(*final(self), path@.subrange(from as int, path@.len() as int)).children.len()
                    ==> rolled_out::<T>(#[trigger] node_at(*final(self), path@.subrange(from as int, path@.len() as int)).children[k], g.state()),
            expanded(
                node_at(*old(self), path@.subrange(from as int, path@.len() as int)),
                node_at(*final(self), path@.subrange(from as int, path@.len() as int)),
                actions@,
            ),
        decreases path@.len() - from,
    {
        if from == path.len() {
            let base = self.children.len();
            self.expand(actions);
            let ghost mid = self.children@;
            assert forall|k: int| base <= k < mid.len() implies is_fresh(#[trigger] mid[k], mid[k].action) by {
                assert(is_fresh(mid[base + (k - base)], actions@[k - base]));
            }
            let w = self.simulate_children(base, g, rng);
            let n = actions.len() as u32;
            self.plays = self.plays + n;
            self.wins = self.wins + w;
            proof {
                let o = *old(self);
                let f = *self;
                assert(f.children@.subrange(0, base as int) == mid.subrange(0, base as int));
                assert(mid.subrange(0, base as int) == o.children@);
                assert forall|i: int| 0 <= i < o.children.len() implies f.children[i] == #[trigger] o.children[i] by {
                    assert(f.children@.subrange(0, base as int)[i] == f.children[i]);
                }
                assert forall|i: int| 0 <= i < o.children.len() implies grows(#[trigger] o.children[i], f.children[i]) by {
                    lemma_grows_refl(o.children[i]);
                }
                assert(wf(o));
                assert forall|i: int| 0 <= i < f.children.len() implies (#[trigger] f.children[i]).plays <= f.plays && wf(f.children[i]) by {
                    if i >= base {
                        assert(f.children[i].children.len() == 0);
                        assert(wf(f.children[i]));
                    } else {
                        assert(f.children[i] == o.children[i]);
                        assert(o.children[i].plays <= o.plays && wf(o.children[i]));
                    }
                }
                assert forall|k: int| 0 <= k < actions@.len() implies {
                    let c = #[trigger] f.children[o.children.len() + k];
                    &&& c.action == actions@[k]
                    &&& c.plays == 1
                    &&& c.wins <= 1
                    &&& c.children.len() == 0
                } by {
                    assert(is_fresh(mid[o.children.len() + k], actions@[k]));
                }
            }
            assert(path@.subrange(from as int, path@.len() as int).len() == 0);
            (n, w)
        } else {
            let i = path[from];
            proof {
                let p = path@.subrange(from as int, path@.len() as int);
                assert(p[0] == i);
                assert(p.drop_first() =~= path@.subrange(from + 1, path@.len() as int));
            }
            let ghost before = self.children@;
            let res = self.children[i].grow(path, from + 1, actions, g, rng);
            self.plays = self.plays + res.0;
            self.wins = self.wins + res.1;
            proof {
                let o = *old(self);
                let f = *self;
                assert(f.children@ == before.update(i as int, f.children[i as int]));
                let p = path@.subrange(from as int, path@.len() as int);
                assert(node_at(o, p) == node_at(o.children[i as int], p.drop_first()));
                assert(node_at(f, p) == node_at(f.children[i as int], p.drop_first()));
                assert forall|j: int| 0 <= j < o.children.len() && j != p[0] implies #[trigger] f.children[j] == o.children[j] by {}
                assert(bumped(o, f, p, res.0 as int, res.1 as int, actions@));
                assert forall|j: int| 0 <= j < o.children.len() implies grows(#[trigger] o.children[j], f.children[j]) by {
                    if j != i {
                        lemma_grows_refl(o.children[j]);
                    }
                }
            }
            res
        }
    }

    /// Takes out child `at` with its whole subtree; the other children keep their order.
    pub fn update_tree(&mut self, at: usize) -> (r: Tree)
        requires
            at < old(self).children.len(),
        ensures
            r == old(self).children[at as int],
            final(self).children@ == old(self).children@.remove(at as int),
            final(self).plays == old(self).plays,
            final(self).wins == old(self).wins,
            final(self).action == old(self).action,
    {
        self.children.remove(at)
    }

    /// Appends `entry(*c, i)` to `out`.
    fn push_entry(c: &Tree, i: usize, out: &mut Vec<char>)
        ensures
            final(out)@ == old(out)@ + entry(*c, i as nat),
        decreases *c, 1nat,
    {
        let ghost before = out@;
        push_header(c, out);
        let next: usize = if i < usize::MAX { i + 1 } else { i };
        c.render_into(next, out);
        out.push('\n');
        push_indent(i, out);
        assert(entry(*c, i as nat) == header(*c) + render(*c, deeper(i as nat)) + seq!['\n'] + indent(i as nat));
        assert(out@ =~= before + entry(*c, i as nat));
    }

    /// Appends `render(*self, i)` to `out`.
    pub(crate) fn render_into(&self, i: usize, out: &mut Vec<char>)
        ensures
            final(out)@ == old(out)@ + render(*self, i as nat),
        decreases *self, 0nat,
    {
        let mut k: usize = 0;
        while k < self.children.len()
            invariant
                k <= self.children@.len(),
                out@ == old(out)@ + render_from(*self, i as nat, k as int),
            decreases self.children@.len() - k,
        {
            Tree::push_entry(&self.children[k], i, out);
            assert(render_from(*self, i as nat, k + 1) == render_from(*self, i as nat, k as int) + entry(self.children[k as int], i as nat));
            k += 1;
            assert(out@ =~= old(out)@ + render_from(*self, i as nat, k as int));
        }
    }

    /// The children of this node as text, drawn at level `i`; see `render`.
    pub fn fmt(&self, i: usize) -> (r: String)
        ensures
            r@ == render(*self, i as nat),
    {
        let mut out: Vec<char> = Vec::new();
        self.render_into(i, &mut out);
        assert(out@ =~= render(*self, i as nat));
        chars_to_string(&out)
    }

    /// Scaled UCB1 score of a visited child.
    fn explore_score(&self, ln_t: u64) -> (r: u64)
        requires
            self.plays > 0,
            ln_t <= 33 * LN2_SCALED,
        ensures
            r == ucb_score(*self, ln_t as int),
    {
        let plays: u64 = self.plays as u64;
        let exploit: u64 = self.wins as u64 * SCALE / plays;
        let ghost num: int = 2 * ln_t * SCALE;
        assert(num / plays as int <= num) by (nonlinear_arith)
            requires plays >= 1, num >= 0;
        let radicand: u64 = 2 * ln_t * SCALE / plays;
        let explore: u64 = isqrt_fixed(radicand);
        assert(exploit <= u32::MAX * SCALE) by (nonlinear_arith)
            requires exploit as int == (self.wins as int * SCALE as int) / plays as int, plays >= 1, self.wins <= u32::MAX;
        exploit + explore
    }

    /// UCB1 selection among the children, with `total_step` the engine's step count:
    /// the first unvisited child if there is one, else the leftmost child of
    /// maximal score.
    pub fn explore_index(&self, total_step: u32) -> (r: usize)
        requires
            self.children@.len() > 0,
        ensures
            is_explore_index(self.children@, r as int, total_step as nat),
    {
        let ln_t: u64 = ln_fixed(total_step);
        let mut best: usize = 0;
        let mut best_score: u64 = if self.children[0].plays == 0 { 0 } else { self.children[0].explore_score(ln_t) };
        let mut j: usize = 1;
        while j < self.children.len()
            invariant
                0 <= best < j <= self.children@.len(),
                ln_t == ln_scaled(total_step as nat),
                ln_t <= 33 * LN2_SCALED,
                self.children@[best as int].plays > 0 ==> best_score == ucb_score(self.children@[best as int], ln_t as int),
                forall|k: int| 0 <= k < j ==> !explores_above(#[trigger] self.children@[k], self.children@[best as int], total_step as nat),
                forall|k: int| 0 <= k < best ==> explores_above(self.children@[best as int], #[trigger] self.children@[k], total_step as nat),
            decreases self.children@.len() - j,
        {
            let c = &self.children[j];
            if c.plays == 0 {
                if self.children[best].plays != 0 {
                    best = j;
                }
            } else if self.children[best].plays != 0 {
                let score: u64 = c.explore_score(ln_t);
                if score > best_score {
                    best = j;
                    best_score = score;
                }
            }
            j += 1;
        }
        best
    }

    /// Comparison of two children's win ratios; see `ratio_above`.
    fn beats(a: &Tree, b: &Tree) -> (r: bool)
        ensures
            r == ratio_above(*a, *b),
    {
        if a.plays == 0 {
            b.plays != 0
        } else if b.plays == 0 {
            false
        } else {
            let (an, ad, bn, bd) = (a.wins as u64, a.plays as u64, b.wins as u64, b.plays as u64);
            assert(an * bd <= u32::MAX * u32::MAX) by (nonlinear_arith)
                requires an <= u32::MAX, bd <= u32::MAX;
            assert(bn * ad <= u32::MAX * u32::MAX) by (nonlinear_arith)
                requires bn <= u32::MAX, ad <= u32::MAX;
            an * bd > bn * ad
        }
    }

    /// Index of the child with the highest observed win ratio: the first unvisited
    /// child if there is one, else the leftmost child of maximal `wins / plays`.
    pub fn best_child_index(&self) -> (r: usize)
        requires
            self.children@.len() > 0,
        ensures
            is_best_index(self.children@, r as int),
    {
        let mut best: usize = 0;
        let mut j: usize = 1;
        while j < self.children.len()
            invariant
                0 <= best < j <= self.children@.len(),
                forall|k: int| 0 <= k < j ==> !ratio_above(#[trigger] self.children@[k], self.children@[best as int]),
                forall|k: int| 0 <= k < best ==> ratio_above(self.children@[best as int], #[trigger] self.children@[k]),
            decreases self.children@.len() - j,
        {
            if Tree::beats(&self.children[j], &self.children[best]) {
                proof {
                    let cs = self.children@;
                    assert forall|k: int| 0 <= k < j implies ratio_above(cs[j as int], #[trigger] cs[k]) by {
                        lemma_ratio_above_trans(cs[j as int], cs[best as int], cs[k]);
                    }
                }
                best = j;
            }
            j += 1;
        }
        best
    }
}

} // verus!
