use rand::SeedableRng;
use mcts::engine::MCTS;
use mcts::game::{GameTest, PlayRes};
use mcts::node::{isqrt_fixed, ln_fixed, Tree};
use mcts::tictactoe::{Check, Duel, Game};

fn node(plays: u32, wins: u32, action: usize) -> Tree {
    Tree { children: Vec::new(), plays, wins, action }
}

fn parent(children: Vec<Tree>) -> Tree {
    Tree { children, plays: 100, wins: 0, action: 0 }
}

fn counters(t: &Tree, out: &mut Vec<(usize, u32, u32, usize)>) {
    out.push((t.action, t.plays, t.wins, t.children.len()));
    for c in &t.children {
        counters(c, out);
    }
}

fn all_nodes_ok(t: &Tree) -> bool {
    t.wins <= t.plays && t.children.iter().all(|c| c.plays <= t.plays && all_nodes_ok(c))
}

#[test]
fn best_child_takes_highest_ratio_leftmost() {
    let t = parent(vec![node(4, 1, 10), node(3, 2, 11), node(6, 4, 12), node(2, 1, 13)]);
    assert_eq!(t.best_child_index(), 1);
    let t = parent(vec![node(4, 0, 10), node(4, 0, 11)]);
    assert_eq!(t.best_child_index(), 0);
    let t = parent(vec![node(4, 3, 10), node(0, 0, 11), node(0, 0, 12)]);
    assert_eq!(t.best_child_index(), 1);
    let t = parent(vec![node(2, 2, 10), node(0, 0, 11)]);
    assert_eq!(t.best_child_index(), 1);
    let t = parent(vec![node(3, 1, 10), node(6, 2, 11), node(9, 3, 12)]);
    assert_eq!(t.best_child_index(), 0);
}

#[test]
fn explore_prefers_unvisited_children() {
    let t = parent(vec![node(5, 5, 10), node(3, 3, 11), node(0, 0, 12), node(0, 0, 13)]);
    assert_eq!(t.explore_index(10), 2);
    let t = parent(vec![node(10, 9, 10), node(1, 0, 11)]);
    assert_eq!(t.explore_index(1), 0);
    assert_eq!(t.explore_index(1000), 1);
}

#[test]
fn fixed_point_logarithm_and_root() {
    assert_eq!(ln_fixed(0), 0);
    assert_eq!(ln_fixed(1), 0);
    assert_eq!(ln_fixed(2), 45426);
    assert_eq!(ln_fixed(3), 68139);
    assert_eq!(ln_fixed(4), 90852);
    assert_eq!(isqrt_fixed(0), 0);
    assert_eq!(isqrt_fixed(15), 3);
    assert_eq!(isqrt_fixed(16), 4);
    assert_eq!(isqrt_fixed(0xff_ffff_ffff), 0xf_ffff);
}

#[test]
fn first_train_expands_every_legal_action() {
    let mut engine = MCTS::with_seed(7);
    let mut g = Duel::new(true, true);
    engine.train(&mut g);
    assert_eq!(engine.tot_step, 1);
    assert_eq!(engine.tree.children.len(), 9);
    assert_eq!(engine.tree.plays, 9);
    for (i, c) in engine.tree.children.iter().enumerate() {
        assert_eq!(c.action, i);
        assert_eq!(c.plays, 1);
        assert!(c.wins <= 1);
        assert!(c.children.is_empty());
    }
    assert_eq!(g.valid_actions().len(), 9);
}

#[test]
fn training_keeps_counts_consistent_and_growing() {
    let mut engine = MCTS::with_seed(11);
    let mut g = Duel::new(true, true);
    let mut before = Vec::new();
    for _ in 0..200 {
        engine.train(&mut g);
        assert!(all_nodes_ok(&engine.tree));
        let mut now = Vec::new();
        counters(&engine.tree, &mut now);
        assert!(now.len() >= before.len());
        before = now;
    }
    let p = engine.tree.plays;
    engine.train(&mut g);
    assert!(engine.tree.plays >= p);
    assert_eq!(engine.tot_step, 201);
}

#[test]
fn advancing_keeps_the_promoted_subtree() {
    let mut engine = MCTS::with_seed(3);
    let mut g = Duel::new(true, true);
    for _ in 0..50 {
        engine.train(&mut g);
    }
    let mut expected = Vec::new();
    counters(&engine.tree.children[4], &mut expected);
    engine.apply_ext(&mut g, 4);
    let mut got = Vec::new();
    counters(&engine.tree, &mut got);
    assert_eq!(got, expected);
    assert_eq!(g.valid_actions(), vec![0, 1, 2, 3, 5, 6, 7, 8]);
    assert!(engine.tree.children.iter().all(|c| c.action != 4));
}

#[test]
fn commit_best_move_picks_best_child() {
    let mut engine = MCTS::with_seed(5);
    let mut g = Duel::new(true, true);
    for _ in 0..30 {
        engine.train(&mut g);
    }
    let best = engine.tree.best_child_index();
    let action = engine.tree.children[best].action;
    let mut expected = Vec::new();
    counters(&engine.tree.children[best], &mut expected);
    assert_eq!(engine.commit_best_move(&mut g), action);
    let mut got = Vec::new();
    counters(&engine.tree, &mut got);
    assert_eq!(got, expected);
}

#[test]
fn seeded_engines_agree() {
    let run = || {
        let mut engine = MCTS::with_seed(42);
        let mut g = Duel::new(true, true);
        for _ in 0..100 {
            engine.train(&mut g);
        }
        let mut out = Vec::new();
        counters(&engine.tree, &mut out);
        out
    };
    assert_eq!(run(), run());
}

fn blocking_reply(g: &Duel, legal: &[usize]) -> usize {
    let cells: Vec<char> = g.game().show().chars().filter(|c| *c != '\n').collect();
    let lines = [[0, 1, 2], [3, 4, 5], [6, 7, 8], [0, 3, 6], [1, 4, 7], [2, 5, 8], [0, 4, 8], [2, 4, 6]];
    for l in lines.iter() {
        let xs = l.iter().filter(|&&i| cells[i] == 'X').count();
        if xs == 2 {
            if let Some(&free) = l.iter().find(|&&i| cells[i] == '.') {
                return free;
            }
        }
    }
    legal[0]
}

#[test]
fn engine_plays_a_whole_game_against_a_blocker() {
    let mut engine = MCTS::with_seed(1);
    let mut g = Duel::new(true, true);
    for _ in 0..500 {
        engine.train(&mut g);
    }
    loop {
        let legal = g.valid_actions();
        if legal.is_empty() {
            break;
        }
        let a = engine.play_best_move(&mut g);
        assert!(legal.contains(&a));
        assert_eq!(engine.tree.action, a);
        if g.game().check_win() != Check::Empty {
            break;
        }
        let legal = g.valid_actions();
        if legal.is_empty() {
            break;
        }
        let reply = blocking_reply(&g, &legal);
        if engine.tree.children.is_empty() {
            engine.train(&mut g);
        }
        let mut actions: Vec<usize> = engine.tree.children.iter().map(|c| c.action).collect();
        actions.sort();
        assert_eq!(actions, legal);
        engine.apply_ext(&mut g, reply);
        assert_eq!(engine.tree.action, reply);
        if g.game().check_win() != Check::Empty {
            break;
        }
        for _ in 0..100 {
            engine.train(&mut g);
        }
    }
}

#[test]
fn best_path_follows_best_children() {
    let deep = Tree { children: vec![node(2, 0, 5), node(2, 2, 6)], plays: 4, wins: 2, action: 1 };
    let t = parent(vec![node(3, 1, 0), deep, node(5, 1, 2)]);
    let mut path = Vec::new();
    t.path_to_best(&mut path);
    assert_eq!(path, vec![1, 1]);
    let mut empty = Vec::new();
    Tree::new(0).path_to_best(&mut empty);
    assert!(empty.is_empty());
}

#[test]
fn plain_board_rules() {
    let mut b = Game::new();
    assert_eq!(b.show(), "\n...\n...\n...");
    assert_eq!(b.valid_moves().len(), 9);
    assert_eq!(b.play(4, Check::X), Check::Empty);
    b.place(0, Check::O);
    assert_eq!(b.show(), "\n0..\n.X.\n...");
    assert_eq!(b.valid_moves(), vec![1, 2, 3, 5, 6, 7, 8]);
    b.place(1, Check::O);
    assert_eq!(b.play(2, Check::O), Check::O);
    let mut c = Game::new();
    assert_eq!(c.check_win(), Check::Empty);
    for i in [3, 4, 5] {
        c.place(i, Check::X);
    }
    assert_eq!(c.check_win(), Check::Empty);
    c.place(0, Check::O);
    assert_eq!(c.check_win(), Check::X);
}

#[test]
fn duel_reports_outcomes() {
    let mut g = Duel::new(true, true);
    assert!(matches!(g.play(0), PlayRes::Nothing));
    assert!(matches!(g.play(0), PlayRes::Loose));
    assert!(matches!(g.play(9), PlayRes::Loose));
    assert!(matches!(g.play(3), PlayRes::Nothing));
    assert!(matches!(g.play(1), PlayRes::Nothing));
    assert!(matches!(g.play(4), PlayRes::Nothing));
    assert!(matches!(g.play(2), PlayRes::Win));
    let copy = g.duplicate();
    assert_eq!(copy.valid_actions(), g.valid_actions());
}

#[test]
fn tree_text_shows_counters() {
    let leaf = node(3, 1, 7);
    let t = Tree { children: vec![node(1, 0, 2), Tree { children: vec![leaf], plays: 12, wins: 5, action: 4 }], plays: 13, wins: 5, action: 0 };
    assert_eq!(Tree::new(0).fmt(1), "");
    assert_eq!(t.fmt(0), " 2: 0/ 1--\n 4: 5/12-- 7: 1/ 3--\n |        \n");
    let mut engine = MCTS::with_seed(9);
    assert_eq!(engine.describe(), " @: 0/ 0--");
    let mut g = Duel::new(true, true);
    engine.train(&mut g);
    let text = engine.describe();
    assert!(text.starts_with(" @:"));
    assert_eq!(text.matches('\n').count(), 9);
}


fn same_tree(a: &Tree, b: &Tree) -> bool {
    a.action == b.action
        && a.plays == b.plays
        && a.wins == b.wins
        && a.children.len() == b.children.len()
        && a.children.iter().zip(b.children.iter()).all(|(x, y)| same_tree(x, y))
}

fn clone_tree(t: &Tree) -> Tree {
    Tree { children: t.children.iter().map(clone_tree).collect(), plays: t.plays, wins: t.wins, action: t.action }
}

#[test]
fn counts_go_up_the_selected_path_only() {
    let mut engine = MCTS::with_seed(17);
    let mut g = Duel::new(true, true);
    for step in 0..60 {
        let before = clone_tree(&engine.tree);
        let total = engine.tot_step;
        engine.train(&mut g);
        let added = engine.tree.plays - before.plays;
        let won = engine.tree.wins - before.wins;
        let (mut old, mut new) = (&before, &engine.tree);
        loop {
            assert_eq!(new.plays, old.plays + added, "step {}", step);
            assert_eq!(new.wins, old.wins + won, "step {}", step);
            if old.children.is_empty() {
                assert_eq!(new.children.len() as u32, added);
                let fresh_wins: u32 = new.children.iter().map(|c| c.wins).sum();
                assert_eq!(fresh_wins, won);
                break;
            }
            let i = old.explore_index(total);
            assert_eq!(new.children.len(), old.children.len());
            for j in 0..old.children.len() {
                if j != i {
                    assert!(same_tree(&old.children[j], &new.children[j]));
                }
            }
            old = &old.children[i];
            new = &new.children[i];
        }
    }
}

#[test]
fn rollout_from_a_full_board_is_a_loss() {
    let mut g = Duel::new(true, true);
    for a in [0, 1, 2, 4, 3, 5, 7, 6, 8] {
        assert!(matches!(g.play(a), PlayRes::Nothing));
    }
    assert!(g.valid_actions().is_empty());
    let shown = g.game().show();
    let mut rng = rand::rngs::StdRng::seed_from_u64(0);
    let mut t = node(0, 0, 0);
    assert_eq!(t.simulate(&mut g, &mut rng), false);
    assert_eq!((t.plays, t.wins), (1, 0));
    assert_eq!(g.game().show(), shown);
    let mut fresh = Duel::new(true, true);
    let won = t.simulate(&mut fresh, &mut rng);
    assert_eq!((t.plays, t.wins), (2, if won { 1 } else { 0 }));
}

#[test]
fn engine_from_system_entropy_trains() {
    let mut engine = MCTS::new();
    let mut g = Duel::new(false, true);
    for _ in 0..20 {
        engine.train(&mut g);
    }
    assert_eq!(engine.tot_step, 20);
    assert_eq!(engine.tree.children.len(), 9);
    assert!(all_nodes_ok(&engine.tree));
    let a = engine.play_best_move(&mut g);
    assert!(a < 9);
}
