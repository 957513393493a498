use rand::SeedableRng;
use rand_xorshift::XorShiftRng;
use arbor::fixed::{HALF, ONE};
use arbor::fixtures::{Countdown, Pick, Side, SlotPick, Take};
use arbor::game::{Action, GameState, Player};
use arbor::search::{Node, MCTS};

/// Every node is counted under exactly one kind, so the counts sum to the stack's length,
/// and `bytes` is the stack's size.
fn assert_info_counts_match_stack<P: Player, A: Action, S: GameState<P, A>>(mcts: &MCTS<P, A, S>) {
    let total = mcts.info.branch + mcts.info.leaf + mcts.info.terminal + mcts.info.unknown + mcts.info.transpose;
    assert_eq!(total as usize, mcts.stack.len(), "Info's node-type counts should sum to the stack's length");
    assert_eq!(
        mcts.info.bytes,
        mcts.stack.len() * std::mem::size_of::<Node<P, A>>(),
        "Info.bytes should match the stack's actual size"
    );
}

#[test]
fn ponder_zero_on_fresh_mcts_is_a_noop() {
    let mut mcts = MCTS::new(Countdown::new(10));
    mcts.ponder(0);
    assert!(mcts.best().is_none(), "ponder(0) should not have run any real search");
}

#[test]
fn ponder_on_gameover_root_does_not_panic() {
    let mut mcts = MCTS::new(Countdown::new(0));
    mcts.ponder(10);
    assert!(mcts.best().is_none(), "there is no move to make from an already-decided position");
}

#[test]
fn ponder_on_gameover_root_is_repeatable() {
    let mut mcts = MCTS::new(Countdown::new(0));
    mcts.ponder(1);
    mcts.ponder(100);
    assert!(mcts.best().is_none());
}

#[test]
fn best_prefers_visit_count_over_lucky_average() {
    let mut mcts = MCTS::new(Countdown::new(10));
    mcts.ponder(1);

    match mcts.stack[0] {
        Node::Branch(_, _, player, _, _, _) => assert_eq!(player, Side::A),
        _ => panic!("expected root to be a branch after one iteration"),
    }

    mcts.stack[1] = Node::Leaf(true, Take(1), Side::B, 50_000, 1);
    mcts.stack[2] = Node::Leaf(true, Take(2), Side::B, 20 * ONE, 50);
    mcts.stack[3] = Node::Leaf(false, Take(3), Side::B, 25 * ONE, 50);

    assert_eq!(mcts.best(), Some(Take(2)), "the well-explored move should win over the lucky, barely-visited one");
}

#[test]
fn best_prefers_proven_win_over_a_much_better_explored_uncertain_move() {
    let mut mcts = MCTS::new(Countdown::new(10));
    mcts.ponder(1);

    mcts.stack[1] = Node::Terminal(true, Take(1), Side::B, 0);
    mcts.stack[2] = Node::Leaf(true, Take(2), Side::B, 5 * ONE, 50);
    mcts.stack[3] = Node::Leaf(false, Take(3), Side::B, 25 * ONE, 50);

    assert_eq!(mcts.best(), Some(Take(1)), "a proven win must be chosen over any merely-probable move");
}

#[test]
fn best_prefers_any_unresolved_move_over_a_proven_loss() {
    let mut mcts = MCTS::new(Countdown::new(10));
    mcts.ponder(1);

    mcts.stack[1] = Node::Terminal(true, Take(1), Side::B, ONE);
    mcts.stack[2] = Node::Leaf(true, Take(2), Side::B, 20 * ONE, 50);
    mcts.stack[3] = Node::Leaf(false, Take(3), Side::B, 49 * ONE, 50);

    assert_eq!(mcts.best(), Some(Take(2)), "any unresolved move should be preferred over a proven loss");
}

#[test]
fn best_prefers_a_proven_draw_over_an_unresolved_move_with_the_same_average() {
    let mut mcts = MCTS::new(Countdown::new(10));
    mcts.ponder(1);

    mcts.stack[1] = Node::Terminal(true, Take(1), Side::B, HALF);
    mcts.stack[2] = Node::Leaf(true, Take(2), Side::B, 25 * ONE, 50);
    mcts.stack[3] = Node::Leaf(false, Take(3), Side::B, 26 * ONE, 50);

    assert_eq!(
        mcts.best(),
        Some(Take(1)),
        "a proven draw should be preferred over an unresolved move even with the same apparent average"
    );
}

#[test]
fn slotpick_can_actually_reach_a_draw() {
    let mut mcts = MCTS::new(SlotPick::new(&[2, 5]));
    mcts.ponder(20000);

    let found_draw = mcts.stack.iter().any(|node| matches!(node, Node::Terminal(_, _, _, w) if *w == HALF));
    assert!(found_draw, "expected at least one proven-draw Terminal after 20000 iterations");
}

#[test]
fn info_counts_match_the_stack_after_normal_search() {
    let mut mcts = MCTS::new(Countdown::new(30));
    mcts.ponder(5000);
    assert_info_counts_match_stack(&mcts);
}

#[test]
fn info_counts_match_the_stack_after_a_bootstrap_only_ponder_call() {
    let mut mcts = MCTS::new(Countdown::new(10));
    mcts.ponder(1);
    assert_info_counts_match_stack(&mcts);
    assert!(mcts.info.bytes > 0, "Info.bytes should be set after even a single iteration");
}

#[test]
fn info_counts_match_the_stack_after_solving() {
    let mut mcts = MCTS::new(Countdown::new(4));
    mcts.ponder(5000);
    assert_info_counts_match_stack(&mcts);
}

#[test]
fn info_counts_match_the_stack_with_transposition() {
    let mut mcts = MCTS::new(Countdown::new(20)).with_transposition();
    mcts.ponder(5000);
    assert_info_counts_match_stack(&mcts);
}

#[test]
fn best_converges_to_the_game_theoretically_correct_move() {
    let mut mcts = MCTS::new(Countdown::new(6));
    mcts.ponder(20000);
    assert_eq!(mcts.best(), Some(Take(2)));
}

#[test]
fn f64_accumulation_resists_the_drift_f32_would_suffer_at_high_visit_counts() {
    let iterations: u32 = 5_000_000;
    let increment = 1.0 / 3.0;

    let mut sum32: f32 = 0.0;
    let mut sum64: f64 = 0.0;
    for _ in 0..iterations {
        sum32 += increment as f32;
        sum64 += increment;
    }

    let expected = iterations as f64 * increment;
    let err32 = (sum32 as f64 - expected).abs();
    let err64 = (sum64 - expected).abs();

    assert!(err64 < 1.0, "f64 accumulation error should stay tiny at {} iterations, got {}", iterations, err64);
    assert!(
        err32 > err64 * 1000.0,
        "expected f32 accumulation to drift dramatically more than f64 at {} iterations (f32 err={}, f64 err={})",
        iterations,
        err32,
        err64
    );
}

#[test]
fn solver_proves_a_forced_loss_and_stops_further_work() {
    let mut mcts = MCTS::new(Countdown::new(4));
    mcts.ponder(5000);

    match mcts.stack[0] {
        Node::Terminal(_, _, player, w) => {
            assert_eq!(player, Side::A);
            assert_eq!(w, 0, "a forced loss should be proven with certainty (0.0), not just estimated");
        }
        _ => panic!("expected the root to be fully solved as Terminal after 5000 iterations of a 3-ply-deep forced loss"),
    }

    let n_before = mcts.info.n;
    mcts.ponder(1000);
    assert_eq!(mcts.info.n, n_before, "once solved, further ponder() calls should do no additional work");

    assert!(mcts.best().is_some());
}

#[test]
fn solver_proves_a_forced_win_via_a_single_winning_child() {
    let mut mcts = MCTS::new(Countdown::new(5));
    mcts.ponder(20000);

    match mcts.stack[0] {
        Node::Terminal(_, a, player, w) => {
            assert_eq!(player, Side::A);
            assert_eq!(w, ONE, "a forced win should be proven with certainty (1.0)");
            assert_eq!(a, Take(1), "the remembered move should be the actual winning one");
        }
        _ => panic!("expected the root to be fully solved as Terminal after 20000 iterations"),
    }

    assert_eq!(mcts.best(), Some(Take(1)));
}

#[test]
fn transposition_detects_a_genuine_transposition() {
    let mut mcts = MCTS::new(Countdown::new(10)).with_transposition();
    mcts.ponder(500);

    assert!(!mcts.map.is_empty(), "the transposition table should have recorded at least one hash");

    let found_transpose = mcts.stack.iter().any(|node| matches!(node, Node::Transpose(_, _, _)));
    assert!(found_transpose, "expected at least one Node::Transpose after 500 iterations on a game with frequent transpositions");
}

#[test]
fn transposition_shares_stats_across_both_paths_to_the_same_position() {
    let mut mcts = MCTS::new(Countdown::new(10)).with_transposition();
    mcts.ponder(500);

    let transpose = mcts.stack.iter().enumerate().find_map(|(i, node)| {
        if let Node::Transpose(_, _, u) = node {
            Some((i, *u))
        } else {
            None
        }
    });
    let (_, target) = transpose.expect("expected at least one transposition after 500 iterations");

    assert!(mcts.map.values().any(|&v| v == target), "the transposition map should record the shared target's index");

    let n_before = match &mcts.stack[target] {
        Node::Leaf(_, _, _, _, n) | Node::Branch(_, _, _, _, n, _) => *n,
        other => panic!("expected the transposition target to be a Leaf or Branch with real stats, got {:?}", other),
    };
    assert!(n_before > 0, "the transposition target should already have real accumulated visits");

    mcts.ponder(500);
    let n_after = match &mcts.stack[target] {
        Node::Leaf(_, _, _, _, n) | Node::Branch(_, _, _, _, n, _) => *n,
        other => panic!("expected the transposition target to remain a Leaf or Branch, got {:?}", other),
    };
    assert!(n_after > n_before, "the shared target should keep accumulating visits from further search");
}

#[test]
fn transposition_does_not_let_the_solver_see_through_it() {
    let mut mcts = MCTS::new(Countdown::new(10));
    mcts.ponder(1);

    let c = match mcts.stack[0] {
        Node::Branch(_, _, _, _, _, c) => c,
        _ => panic!("expected root to be a branch after one iteration"),
    };

    let target = mcts.stack.len();
    mcts.stack.push(Node::Terminal(false, Take(1), Side::B, ONE));

    mcts.stack[c] = Node::Transpose(true, Take(1), target);
    mcts.stack[c + 1] = Node::Unknown(true, Take(2));
    mcts.stack[c + 2] = Node::Unknown(false, Take(3));

    mcts.ponder(1);

    match &mcts.stack[0] {
        Node::Branch(_, _, _, _, _, _) => {}
        other => panic!(
            "expected the root to remain unsolved (still a Branch) despite a Transpose sibling pointing at a proven win, got {:?}",
            other
        ),
    }
}

#[test]
fn transposition_still_converges_to_the_correct_move() {
    let mut mcts = MCTS::new(Countdown::new(6)).with_transposition();
    mcts.ponder(20000);
    assert_eq!(mcts.best(), Some(Take(2)));
}

#[test]
fn expansion_minimum_delays_expansion_until_exactly_the_configured_visit_count() {
    let k = 3;
    let mut mcts = MCTS::new(Countdown::new(10)).with_expansion_minimum(k);
    mcts.ponder(1);

    let c = match mcts.stack[0] {
        Node::Branch(_, _, _, _, _, c) => c,
        _ => panic!("expected root to be a branch after one iteration"),
    };

    mcts.stack[c + 1] = Node::Terminal(true, Take(2), Side::B, ONE);
    mcts.stack[c + 2] = Node::Terminal(false, Take(3), Side::B, ONE);

    mcts.stack[c] = Node::Leaf(true, Take(1), Side::B, 1_500_000, k);
    mcts.ponder(1);
    match &mcts.stack[c] {
        Node::Leaf(_, _, _, _, n) => assert_eq!(*n, k + 1, "should have rolled out (not expanded) at n == expansion"),
        other => panic!("expected the child to still be a Leaf at n == expansion, got {:?}", other),
    }

    mcts.ponder(1);
    match &mcts.stack[c] {
        Node::Branch(_, _, _, _, n, _) => {
            assert_eq!(*n, k + 2, "expansion's first visit should also complete a real grandchild backprop in the same step")
        }
        other => panic!("expected the child to have expanded into a Branch at n == expansion + 1, got {:?}", other),
    }
}

#[test]
fn ponder_zero_after_real_search_is_still_a_noop() {
    let mut mcts = MCTS::new(Countdown::new(10));
    mcts.ponder(50);
    let n_before = mcts.info.n;
    mcts.ponder(0);
    assert_eq!(mcts.info.n, n_before, "ponder(0) should not add any iterations");
}

#[test]
fn countdown_losing_positions_are_the_multiples_of_four() {
    for n in 0..20u32 {
        assert_eq!(Countdown::new(n).is_losing_position(), n % 4 == 0);
    }
    assert_eq!(Countdown::new(0).gameover(), Some(arbor::game::GameResult::Lose));
}

#[test]
fn with_entropy_keeps_the_tree_and_settings() {
    let mcts = MCTS::new(Countdown::new(10)).with_exploration(2_000_000).with_entropy();
    assert_eq!(mcts.exploration, 2_000_000);
    assert!(mcts.stack.is_empty());
}

#[test]
fn custom_evaluation_search_still_solves_a_forced_win() {
    let mut mcts = MCTS::new(Countdown::new(5)).with_custom_evaluation();
    mcts.ponder(20000);
    assert_eq!(mcts.best(), Some(Take(1)));
}

#[test]
fn fixed_point_helpers_match_known_values() {
    assert_eq!(arbor::fixed::isqrt(0), 0);
    assert_eq!(arbor::fixed::isqrt(99), 9);
    assert_eq!(arbor::fixed::isqrt(100), 10);
    assert_eq!(arbor::fixed::ln_fixed(1), 0);
    let ln2 = arbor::fixed::ln_fixed(2);
    assert!((ln2 as i64 - 693_147).abs() <= 1, "ln 2 in millionths, got {}", ln2);
}

#[test]
fn ln_fixed_stays_within_a_thousandth_of_the_natural_logarithm() {
    assert_eq!(arbor::fixed::ln_fixed(3), 1_099_157);
    assert_eq!(arbor::fixed::ln_fixed(10), 2_302_439);
    assert_eq!(arbor::fixed::ln_fixed(1000), 6_907_383);
    for x in 1u32..5000 {
        let exact = ((x as f64).ln() * 1_000_000.0) as i64;
        let got = arbor::fixed::ln_fixed(x) as i64;
        assert!((got - exact).abs() <= 1_000, "ln {} in millionths: got {}, exact {}", x, got, exact);
    }
}

fn find_child_n(stack: &[Node<Side, Take>], c: usize, target: Take) -> Option<u32> {
    let mut sibling = Some(c);
    while let Some(u) = sibling {
        let (matches, n, has_sibling) = match stack[u] {
            Node::Leaf(s, a, _, _, n) => (a == target, Some(n), s),
            Node::Branch(s, a, _, _, n, _) => (a == target, Some(n), s),
            Node::Terminal(s, a, _, _) => (a == target, None, s),
            Node::Unknown(s, a) => (a == target, None, s),
            Node::Transpose(s, a, _) => (a == target, None, s),
        };
        if matches {
            return n;
        }
        sibling = if has_sibling { Some(u + 1) } else { None };
    }
    None
}

#[test]
fn info_counts_match_the_stack_after_advance() {
    let mut mcts = MCTS::new(Countdown::new(30));
    mcts.ponder(5000);
    let action = mcts.best().expect("should have a best move");
    let mut mcts = mcts.advance(action);
    assert_info_counts_match_stack(&mcts);

    mcts.ponder(2000);
    assert_info_counts_match_stack(&mcts);
}

#[test]
fn advance_reuses_the_explored_subtree_instead_of_discarding_it() {
    let mut mcts = MCTS::new(Countdown::new(30));
    mcts.ponder(20000);

    let best_move = mcts.best().expect("should have a best move");
    let c = match mcts.stack[0] {
        Node::Branch(_, _, _, _, _, c) => c,
        _ => panic!("expected root to still be a branch (not fully solved) after 20000 iterations"),
    };
    let child_n =
        find_child_n(&mcts.stack, c, best_move).expect("the chosen best move should be an already-visited (Leaf/Branch) child");

    let mcts = mcts.advance(best_move);

    assert_eq!(mcts.info.n, child_n, "advance() should carry over the chosen child's visit count as the new root's");
    match &mcts.stack[0] {
        Node::Branch(_, _, _, _, n, _) => assert_eq!(*n, child_n),
        other => panic!("expected the relocated root to be a Branch, got {:?}", other),
    }
}

#[test]
fn advance_then_further_search_still_finds_the_correct_move() {
    let mut mcts = MCTS::new(Countdown::new(10));
    mcts.ponder(20000);
    assert_eq!(mcts.best(), Some(Take(2)));

    let mut mcts = mcts.advance(Take(2));
    assert_eq!(mcts.root.n, 8);
    assert_eq!(mcts.root.side, Side::B);

    mcts.ponder(20000);
    match &mcts.stack[0] {
        Node::Terminal(_, _, player, w) => {
            assert_eq!(*player, Side::B);
            assert_eq!(*w, 0);
        }
        other => panic!("expected the advanced position to fully solve as a forced loss, got {:?}", other),
    }
}

#[test]
fn advance_without_prior_search_does_not_panic() {
    let mcts = MCTS::new(Countdown::new(10));
    let mut mcts = mcts.advance(Take(2));
    assert_eq!(mcts.root.n, 8);
    mcts.ponder(1000);
    assert!(mcts.best().is_some());
}

#[test]
fn advance_into_an_already_solved_child_recovers_instead_of_getting_stuck() {
    let mut mcts = MCTS::new(Countdown::new(5));
    mcts.ponder(20000);
    assert_eq!(mcts.best(), Some(Take(1)), "sanity check: Take(1) is the unique winning move");

    let mut mcts = mcts.advance(Take(3));
    assert_eq!(mcts.root.n, 2);
    assert_eq!(mcts.root.side, Side::B);

    mcts.ponder(1000);
    assert!(mcts.info.n > 0, "search must still make real progress after advancing into a previously-solved child");
    assert_eq!(mcts.best(), Some(Take(2)), "n=2 is a forced win for Side::B via Take(2) (leaving n=0)");
}

#[test]
fn advance_resets_any_transpose_nodes_in_the_kept_subtree_to_unknown() {
    let mut mcts = MCTS::new(Countdown::new(10)).with_transposition();
    mcts.ponder(1);

    let c = match mcts.stack[0] {
        Node::Branch(_, _, _, _, _, c) => c,
        _ => panic!("expected root to be a branch after one iteration"),
    };

    let target = mcts.stack.len();
    mcts.stack.push(Node::Leaf(false, Take(99), Side::A, 3 * ONE, 6));

    let grandchildren = mcts.stack.len();
    mcts.stack.push(Node::Leaf(true, Take(1), Side::A, 2 * ONE, 4));
    mcts.stack.push(Node::Transpose(false, Take(2), target));

    mcts.stack[c] = Node::Branch(true, Take(1), Side::B, 5 * ONE, 10, grandchildren);

    let mcts = mcts.advance(Take(1));

    let has_transpose = mcts.stack.iter().any(|node| matches!(node, Node::Transpose(_, _, _)));
    assert!(!has_transpose, "advancing should reset every Transpose node in the kept subtree to Unknown");

    let has_unknown = mcts.stack.iter().any(|node| matches!(node, Node::Unknown(_, _)));
    assert!(has_unknown, "the Transpose node should have become a fresh Unknown, not simply vanished");
}

#[test]
fn ply_reports_each_root_child_with_value_and_spread() {
    let mut mcts = MCTS::new(Countdown::new(10));
    mcts.ponder(1);
    mcts.stack[1] = Node::Leaf(true, Take(1), Side::B, 3 * ONE / 10, 1);
    mcts.stack[2] = Node::Terminal(true, Take(2), Side::B, 0);
    mcts.stack[3] = Node::Unknown(false, Take(3));
    let reported = mcts.ply();
    assert_eq!(reported.len(), 3);
    // Take(1): the child's side holds 0.3 after one visit, so the root's side sees 0.7 with
    // spread 1/2 + sqrt(0.7 * 0.3) = 0.5 + 0.458257...
    assert_eq!(reported[0], (Take(1), 700_000, 500_000 + 458_257));
    assert_eq!(reported[1], (Take(2), ONE, 0));
    assert_eq!(reported[2], (Take(3), HALF, HALF));
}

#[test]
fn ply_on_empty_stack_calls_nothing() {
    let mcts = MCTS::new(Countdown::new(10));
    let calls = mcts.ply().len();
    assert_eq!(calls, 0, "ply() before any ponder() call should report nothing");
}

#[test]
fn ply_on_gameover_root_calls_nothing() {
    let mut mcts = MCTS::new(Countdown::new(0));
    mcts.ponder(10);
    let calls = mcts.ply().len();
    assert_eq!(calls, 0, "ply() on an already-decided root should report nothing");
}

#[test]
fn ply_reports_the_exact_average_for_each_child() {
    let mut mcts = MCTS::new(Countdown::new(10));
    mcts.ponder(1);

    mcts.stack[1] = Node::Leaf(true, Take(1), Side::B, 3 * ONE, 10); // root-perspective avg 0.7
    mcts.stack[2] = Node::Terminal(true, Take(2), Side::B, 0); // proven win for root (Side::A)
    mcts.stack[3] = Node::Unknown(false, Take(3));

    let mut reported = mcts.ply();
    reported.sort_by_key(|(a, _, _)| a.0);
    assert_eq!(reported.len(), 3);

    let (a1, w1, e1) = reported[0];
    assert_eq!(a1, Take(1));
    assert_eq!(w1, 700_000, "expected Take(1)'s average to be exactly 0.7");
    assert!(e1 > 0, "a Leaf's confidence value should be a real (nonzero) estimate");

    let (a2, w2, e2) = reported[1];
    assert_eq!(a2, Take(2));
    assert_eq!(w2, ONE, "a proven win should report exactly 1.0");
    assert_eq!(e2, 0, "a proven Terminal has zero uncertainty by definition");

    let (a3, w3, e3) = reported[2];
    assert_eq!(a3, Take(3));
    assert_eq!(w3, HALF, "an Unknown (never visited) child should report the neutral default 0.5");
    assert_eq!(e3, HALF, "an Unknown child's confidence should report the neutral default 0.5");
}

#[test]
fn leaf_value_sum_stores_high_visit_counts_without_losing_precision() {
    let n: u32 = 16_777_217 * 2;
    let w: u64 = 16_777_217 * ONE;

    let mut mcts = MCTS::new(Countdown::new(10));
    mcts.ponder(1);
    let c = match mcts.stack[0] {
        Node::Branch(_, _, _, _, _, c) => c,
        _ => panic!("expected root to be a branch after one iteration"),
    };
    mcts.stack[c] = Node::Leaf(false, Take(1), Side::B, w, n);

    let reported = mcts.ply();
    let (_, avg, _) = reported.into_iter().find(|(a, _, _)| *a == Take(1)).expect("Take(1) should be reported");
    assert_eq!(avg, HALF, "expected the average to remain exactly 0.5");
}

#[test]
fn uct_ties_are_broken_randomly_not_always_first_sibling() {
    let mut counts = [0u32; 3];

    for _ in 0..40 {
        let mut mcts = MCTS::new(Countdown::new(10)).with_entropy();
        mcts.ponder(1);

        let c = match mcts.stack[0] {
            Node::Branch(_, _, _, _, _, c) => c,
            _ => panic!("expected root to be a branch after one iteration"),
        };

        for offset in 0..3 {
            if let Node::Leaf(_, Take(k), _, _, _) = mcts.stack[c + offset] {
                counts[(k - 1) as usize] += 1;
                break;
            }
        }
    }

    let distinct = counts.iter().filter(|&&n| n > 0).count();
    assert!(distinct > 1, "expected tie-breaking to vary which child is explored first across 40 runs, got counts {:?}", counts);
}

#[test]
fn ply_reports_the_raw_average_not_the_rave_blended_value() {
    let mut mcts = MCTS::new(Countdown::new(10)).with_rave();
    mcts.ponder(1);

    mcts.stack[1] = Node::Leaf(true, Take(1), Side::B, 5 * ONE, 10); // root-perspective avg 0.5
    mcts.rave[1] = (1000, 0); // if blended in, would pull the reported value toward 1.0

    let reported = mcts.ply();
    let (_, w, _) = reported.into_iter().find(|(a, _, _)| *a == Take(1)).expect("Take(1) should be reported");

    assert_eq!(w, HALF, "expected the raw average (0.5), unaffected by the RAVE bias");
}

#[test]
fn transposition_sibling_never_receives_rave_credit_even_when_actually_played() {
    let mut mcts = MCTS::new(Countdown::new(10)).with_rave().with_transposition();
    mcts.ponder(1);

    let c = match mcts.stack[0] {
        Node::Branch(_, _, _, _, _, c) => c,
        _ => panic!("expected root to be a branch after one iteration"),
    };

    let target = mcts.stack.len();
    mcts.stack.push(Node::Leaf(false, Take(99), Side::B, 5 * ONE, 10)); // root-perspective avg 0.5
    if mcts.use_rave {
        mcts.rave.push((0, 0));
    }

    mcts.stack[c] = Node::Transpose(true, Take(1), target);
    mcts.stack[c + 1] = Node::Terminal(true, Take(2), Side::B, ONE); // proven loss for root (Side::A)
    mcts.stack[c + 2] = Node::Terminal(false, Take(3), Side::B, ONE); // proven loss for root (Side::A)

    mcts.ponder(1);

    assert_eq!(mcts.rave[c], (0, 0), "a Transpose sibling must never receive RAVE credit, even though its own action was actually played this simulation");
}

#[test]
fn puct_policy_prior_for_a_transpose_uses_its_own_action_not_the_targets() {
    let mut mcts = MCTS::new(Countdown::with_policy_bias(10, 2))
        .with_puct()
        .with_transposition()
        .with_expansion_minimum(50);
    mcts.ponder(1);

    let c = match mcts.stack[0] {
        Node::Branch(_, _, _, _, _, c) => c,
        _ => panic!("expected root to be a branch after one iteration"),
    };

    let target = mcts.stack.len();
    mcts.stack.push(Node::Leaf(false, Take(999), Side::B, 5 * ONE, 10)); // root-perspective avg 0.5, n=10

    mcts.stack[c] = Node::Leaf(true, Take(1), Side::B, 5 * ONE, 10);
    mcts.stack[c + 1] = Node::Transpose(true, Take(2), target);
    mcts.stack[c + 2] = Node::Leaf(false, Take(3), Side::B, 5 * ONE, 10);
    if let Node::Branch(s, a, p, w, _, cc) = mcts.stack[0] {
        mcts.stack[0] = Node::Branch(s, a, p, w, 30, cc);
    }

    mcts.ponder(1);

    let n_after = match &mcts.stack[target] {
        Node::Leaf(_, _, _, _, n) => *n,
        other => panic!("expected the transposition target to remain a Leaf, got {:?}", other),
    };
    assert_eq!(n_after, 11, "the policy-favored move (Take(2), via its Transpose) should have received the additional visit");
}

#[test]
fn rave_credits_a_sibling_beyond_its_own_direct_visits() {
    let mut mcts = MCTS::new(Countdown::new(20)).with_rave();
    mcts.ponder(50);

    let c = match mcts.stack[0] {
        Node::Branch(_, _, _, _, _, c) => c,
        _ => panic!("expected root to still be a branch after 50 iterations"),
    };

    let mut found_extra_credit = false;
    for offset in 0..3 {
        let n = match mcts.stack[c + offset] {
            Node::Leaf(_, _, _, _, n) | Node::Branch(_, _, _, _, n, _) => Some(n),
            _ => None,
        };
        if let Some(n) = n {
            let (rn, _) = mcts.rave[c + offset];
            if rn > n {
                found_extra_credit = true;
            }
        }
    }

    assert!(found_extra_credit, "expected at least one child's RAVE visit count to exceed its own direct visit count");
}

#[test]
fn puct_prefers_the_policy_favored_child_when_visit_stats_are_tied() {
    let mut mcts = MCTS::new(Countdown::with_policy_bias(10, 2)).with_puct().with_expansion_minimum(50);
    mcts.ponder(1);

    let c = match mcts.stack[0] {
        Node::Branch(_, _, _, _, _, c) => c,
        _ => panic!("expected root to be a branch after one iteration"),
    };

    mcts.stack[c] = Node::Leaf(true, Take(1), Side::B, 5 * ONE, 10);
    mcts.stack[c + 1] = Node::Leaf(true, Take(2), Side::B, 5 * ONE, 10);
    mcts.stack[c + 2] = Node::Leaf(false, Take(3), Side::B, 5 * ONE, 10);
    if let Node::Branch(s, a, p, w, _, cc) = mcts.stack[0] {
        mcts.stack[0] = Node::Branch(s, a, p, w, 30, cc);
    }

    mcts.ponder(1);

    match (&mcts.stack[c], &mcts.stack[c + 1], &mcts.stack[c + 2]) {
        (Node::Leaf(_, _, _, _, n1), Node::Leaf(_, _, _, _, n2), Node::Leaf(_, _, _, _, n3)) => {
            assert_eq!(*n2, 11, "the policy-favored child (Take(2)) should have received the additional visit");
            assert_eq!(*n1, 10);
            assert_eq!(*n3, 10);
        },
        other => panic!("expected all three children to remain Leaf nodes, got {:?}", other),
    }
}

fn seed_from_u64(seed: u64) -> [u8; 16] {
    let mut s = [0u8; 16];
    s[0..8].copy_from_slice(&seed.to_le_bytes());
    s[8..16].copy_from_slice(&seed.to_le_bytes());
    s
}

#[test]
fn rave_converges_at_least_as_reliably_as_vanilla_uct_on_a_tight_budget() {
    let seeds: Vec<u64> = (0..40).collect();
    let budget = 300;
    let good_slot = 4;

    let mut vanilla_correct = 0;
    let mut rave_correct = 0;

    for &seed in &seeds {
        let mut vanilla = MCTS::new(SlotPick::new(&[good_slot]));
        vanilla.rand = XorShiftRng::from_seed(seed_from_u64(seed));
        vanilla.ponder(budget);
        if vanilla.best() == Some(Pick(good_slot)) {
            vanilla_correct += 1;
        }

        let mut rave = MCTS::new(SlotPick::new(&[good_slot])).with_rave();
        rave.rand = XorShiftRng::from_seed(seed_from_u64(seed));
        rave.ponder(budget);
        if rave.best() == Some(Pick(good_slot)) {
            rave_correct += 1;
        }
    }

    assert!(rave_correct >= vanilla_correct, "expected RAVE to match or beat vanilla UCT's accuracy on a tight budget (rave={}/{}, vanilla={}/{})", rave_correct, seeds.len(), vanilla_correct, seeds.len());
}

#[test]
fn puct_converges_at_least_as_reliably_as_vanilla_uct_with_a_correct_bias() {
    let seeds: Vec<u64> = (0..40).collect();
    let budget = 150;

    let mut vanilla_correct = 0;
    let mut puct_correct = 0;

    for &seed in &seeds {
        let mut vanilla = MCTS::new(Countdown::new(13));
        vanilla.rand = XorShiftRng::from_seed(seed_from_u64(seed));
        vanilla.ponder(budget);
        if vanilla.best() == Some(Take(1)) {
            vanilla_correct += 1;
        }

        let mut puct = MCTS::new(Countdown::with_policy_bias(13, 1)).with_puct();
        puct.rand = XorShiftRng::from_seed(seed_from_u64(seed));
        puct.ponder(budget);
        if puct.best() == Some(Take(1)) {
            puct_correct += 1;
        }
    }

    assert!(puct_correct >= vanilla_correct, "expected PUCT with a strong correct-move bias to match or beat uniform UCT's accuracy on a tight budget (puct={}/{}, vanilla={}/{})", puct_correct, seeds.len(), vanilla_correct, seeds.len());
}

#[test]
fn each_descent_records_one_visit_at_the_root() {
    let mut mcts = MCTS::new(Countdown::new(20));
    mcts.ponder(1);
    let before = match mcts.stack[0] {
        Node::Branch(_, _, _, _, n, _) => n,
        _ => panic!("expected root to be a branch after one iteration"),
    };
    mcts.ponder(25);
    match mcts.stack[0] {
        Node::Branch(_, _, _, _, n, _) => assert_eq!(n, before + 25),
        Node::Terminal(..) => {},
        other => panic!("expected a branch or a solved root, got {:?}", other),
    }
}

#[test]
fn a_transposition_among_the_root_children_is_read_through_its_target() {
    let mut mcts = MCTS::new(Countdown::new(10));
    mcts.ponder(1);
    let target = mcts.stack.len();
    mcts.stack.push(Node::Leaf(false, Take(99), Side::B, 25 * ONE, 50)); // root-perspective 0.5
    mcts.stack[1] = Node::Transpose(true, Take(1), target);
    mcts.stack[2] = Node::Leaf(true, Take(2), Side::B, 5 * ONE, 10);
    mcts.stack[3] = Node::Unknown(false, Take(3));
    let reported = mcts.ply();
    assert_eq!(reported[0].0, Take(1));
    assert_eq!(reported[0].1, HALF);
    // Take(1) stands for a node visited 50 times: the most-visited unresolved child.
    assert_eq!(mcts.best(), Some(Take(1)));
}
