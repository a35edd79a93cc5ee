use klondike::card::standard_deck;
use klondike::display::render_tableau;
use klondike::game::{GameState, TerminationReason};
use klondike::moves::{generate_legal_moves, MoveKind};
use klondike::search::{
    solve_from_position, solve_single_deck, solve_single_deck_dfs, SearchConfig, SearchLimits,
};
use klondike::tableau::Tableau;
use std::collections::HashSet;

#[test]
fn solve_single_deck_returns_outcome() {
    let deck = standard_deck();
    let outcome = solve_single_deck(deck.clone());

    // The solver must echo the same initial deck it was given.
    assert_eq!(outcome.initial_deck, deck);

    // The winning line must be present exactly when a win was found.
    if outcome.is_win {
        assert!(outcome.winning_line.is_some());
    } else {
        assert!(outcome.winning_line.is_none());
    }

    // We should always have visited at least one node.
    assert!(outcome.nodes_visited >= 1);
}

#[test]
fn redeal_cycle_detected_by_visited_set() {
    println!();
    println!("=== search::redeal_cycle_detected_by_visited_set ===");
    println!();

    let deck = standard_deck();
    let mut state = GameState::new(deck);

    let mut visited: HashSet<u64> = HashSet::new();

    // Step 0: initial tableau
    let mut step: u32 = 0;
    let initial_hash = state.tableau_hash;
    println!("Step {}: initial tableau", step);
    println!("  hash = 0x{:016x}", initial_hash);
    println!("{}", render_tableau(&state.current_tableau()));
    assert!(visited.insert(initial_hash));

    // One full cycle of repeated deals, then a single redeal.
    loop {
        let tab = state.current_tableau();
        let moves = generate_legal_moves(&tab);

        // Prefer a deal if available.
        if let Some(mv) = moves
            .iter()
            .find(|m| matches!(m.kind, MoveKind::DealFromStock))
            .copied()
        {
            step += 1;
            println!("\nStep {}: applying {:?}", step, mv.kind);
            state.apply_move(mv);
            let h = state.tableau_hash;
            let is_new = visited.insert(h);
            println!("  hash = 0x{:016x} ({})", h, if is_new { "new" } else { "already seen" });
            println!("{}", render_tableau(&state.current_tableau()));
            continue;
        }

        // Otherwise redeal and finish the cycle.
        if let Some(mv) = moves
            .iter()
            .find(|m| matches!(m.kind, MoveKind::RedealStock))
            .copied()
        {
            step += 1;
            println!("\nStep {}: applying {:?}", step, mv.kind);
            state.apply_move(mv);
            let h = state.tableau_hash;
            let is_new = visited.insert(h);
            println!("  hash = 0x{:016x} ({})", h, if is_new { "new" } else { "already seen" });
            println!("{}", render_tableau(&state.current_tableau()));

            assert_eq!(
                h, initial_hash,
                "full deal-through + redeal should return to the same tableau"
            );
            assert!(
                !is_new,
                "visited-set should report that the redealt tableau hash was already seen"
            );
            break;
        }

        panic!("No DealFromStock or RedealStock available during redeal cycle");
    }

    println!("\nVisited tableau hashes ({} entries):", visited.len());
    for h in &visited {
        println!("  0x{:016x}", h);
    }

    assert!(
        visited.len() > 1,
        "expected multiple distinct tableau hashes during the deal/redeal cycle"
    );
}

#[test]
fn one_stock_loop_with_shelving() {
    println!();
    println!("=== search::one_stock_loop_with_shelving ===");
    println!();

    let deck = standard_deck();
    let mut main_game = GameState::new(deck);
    let mut shelved: Vec<GameState> = Vec::new();
    let mut step: u32 = 0;

    loop {
        let tab = main_game.current_tableau();
        println!("--- Main path step {} ---", step);
        println!("Tableau hash: 0x{:016x}", main_game.tableau_hash);
        println!("Move stack length: {}", main_game.move_count());
        if main_game.move_count() == 0 {
            println!("Move stack: []");
        } else {
            println!("Move stack (all moves so far):");
            for (i, mv) in main_game.moves.iter().enumerate() {
                println!("  {:2}: {:?}", i + 1, mv.kind);
            }
        }
        println!("{}", render_tableau(&tab));

        let moves = generate_legal_moves(&tab);
        println!("Legal moves at this step ({} total):", moves.len());
        for (i, mv) in moves.iter().enumerate() {
            println!("  {:2}: {}", i + 1, mv.describe(&tab));
        }

        // Choose one deal as the main path; shelve every other move.
        let mut chosen_deal: Option<klondike::moves::Move> = None;

        for mv in &moves {
            if matches!(mv.kind, MoveKind::DealFromStock) && chosen_deal.is_none() {
                chosen_deal = Some(*mv);
            } else {
                let mut child = main_game.clone();
                child.apply_move(*mv);
                shelved.push(child);
            }
        }

        if chosen_deal.is_none() {
            println!("No DealFromStock move available; stopping main path.");
            break;
        }

        main_game.apply_move(chosen_deal.unwrap());
        step += 1;

        let new_tab = main_game.current_tableau();
        if new_tab.stock.len() == 0 {
            println!("\nStock is now empty after step {};", step);
            println!("this completes one loop through the stock (draw-3).");
            println!("{}", render_tableau(&new_tab));
            break;
        }

        if step > 32 {
            println!("Stopping after 32 steps (safety limit).");
            break;
        }
    }

    println!("\nShelved games created: {}", shelved.len());
    for (idx, g) in shelved.iter().enumerate() {
        println!(
            "Shelved[{}]: hash=0x{:016x}, moves={}, last move={:?}",
            idx,
            g.tableau_hash,
            g.move_count(),
            g.moves.last().map(|m| m.kind),
        );
        println!("{}", render_tableau(&g.current_tableau()));
    }
}

#[test]
fn already_won_position_reports_win_immediately() {
    // A position with all 52 cards on the foundations and nothing
    // anywhere else: the solver must report a win with an empty move
    // line after exactly one visited node.
    let mut t = Tableau::new_empty();
    t.foundations = vec![13, 13, 13, 13];
    let cfg = SearchConfig::default();
    let outcome = solve_from_position(&t, &cfg);
    assert!(outcome.is_win);
    assert_eq!(outcome.termination, TerminationReason::Win);
    assert_eq!(outcome.nodes_visited, 1);
    assert_eq!(outcome.winning_line.unwrap().len(), 0);
}

/// A deal engineered so no foundation-eligible card and no legal
/// placement is ever reachable from the seven visible column tops and
/// the eight waste-top positions under draw-3.
fn provably_unplayable_deck() -> Vec<klondike::card::Card> {
    // Column tops land at deal positions 27 down to 21; the waste-top
    // positions are 30, 33, ..., 51. Fill the tops with black 5,7,9,J
    // and the reachable stock cards with 3C, 3S and the red 7, J, K
    // pairs; every other position takes the remaining cards in order.
    let forced: [(usize, u8); 15] = [
        (21, 17), // 5C
        (22, 19), // 7C
        (23, 21), // 9C
        (24, 23), // JC
        (25, 30), // 5S
        (26, 32), // 7S
        (27, 34), // 9S
        (30, 15), // 3C
        (33, 28), // 3S
        (36, 45), // 7D
        (39, 6),  // 7H
        (42, 49), // JD
        (45, 10), // JH
        (48, 51), // KD
        (51, 12), // KH
    ];
    let mut deck: Vec<Option<u8>> = vec![None; 52];
    let mut used = [false; 52];
    for &(pos, card) in forced.iter() {
        deck[pos] = Some(card);
        used[card as usize] = true;
    }
    let mut next: u8 = 0;
    for slot in deck.iter_mut() {
        if slot.is_none() {
            while used[next as usize] {
                next += 1;
            }
            used[next as usize] = true;
            *slot = Some(next);
        }
    }
    deck.into_iter().map(|v| klondike::card::Card(v.unwrap())).collect()
}

#[test]
fn unplayable_deal_reports_loss_after_one_stock_cycle() {
    let deck = provably_unplayable_deck();
    let limits = SearchLimits { max_nodes: 1000, max_depth: 64 };
    let outcome = solve_single_deck_dfs(deck, limits);
    assert!(!outcome.is_win);
    assert_eq!(outcome.termination, TerminationReason::LossNoMoreMoves);
    // One initial node plus eight deals; the redeal leads back to the
    // already-visited opening position and closes the loop.
    assert_eq!(outcome.nodes_visited, 9);
    assert_eq!(outcome.dead_end_branches, 0);
    assert_eq!(outcome.loop_pruned_branches, 1);
    // The only line is the deal chain itself: eight moves deep, and
    // the pending stack never holds more than the one next branch.
    assert_eq!(outcome.max_branch_depth, 8);
    assert_eq!(outcome.max_shelved, 1);
}

#[test]
fn depth_budget_is_reported() {
    // With a one-move depth budget the opening branches are all cut
    // off, and the outcome says so instead of claiming a loss.
    let deck = standard_deck();
    let limits = SearchLimits { max_nodes: 1000, max_depth: 1 };
    let outcome = solve_single_deck_dfs(deck, limits);
    assert!(!outcome.is_win);
    assert_eq!(outcome.termination, TerminationReason::MaxDepthReached);
}

#[test]
fn node_budget_is_respected() {
    let deck = standard_deck();
    let limits = SearchLimits { max_nodes: 5, max_depth: 256 };
    let outcome = solve_single_deck_dfs(deck, limits);
    assert!(outcome.nodes_visited <= 5);
    if !outcome.is_win {
        assert_eq!(outcome.termination, TerminationReason::MaxNodesReached);
    }
}

#[test]
fn winning_line_replays_to_a_win() {
    // Solve a deck; when the solver claims a win, replaying the line
    // through the game layer must reach a winning position.
    let deck = klondike::card::shuffled_deck_from_seed(3);
    let limits = SearchLimits { max_nodes: 20000, max_depth: 200 };
    let outcome = solve_single_deck_dfs(deck.clone(), limits);
    if let Some(line) = outcome.winning_line {
        let mut game = GameState::new(deck);
        for mv in line {
            game.apply_move(mv);
        }
        assert!(game.current_tableau().is_win());
    }
}
