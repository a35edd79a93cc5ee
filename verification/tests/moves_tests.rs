use klondike::card::{standard_deck, Card, Rank, Suit, CARDS_PER_DECK};
use klondike::display::render_tableau;
use klondike::game::GameState;
use klondike::moves::{
    can_move_to_foundation, foundation_index_for, generate_legal_moves, is_valid_run, Move,
    MoveKind,
};
use klondike::tableau::Tableau;

/// Very small deterministic shuffler for tests: "random-looking" but
/// fully reproducible decks.
fn shuffle_deck(deck: &mut Vec<Card>, mut state: u32) {
    fn lcg(state: &mut u32) -> u32 {
        *state = state.wrapping_mul(1664525).wrapping_add(1013904223);
        *state
    }

    let len = deck.len();
    for i in (1..len).rev() {
        let r = (lcg(&mut state) as usize) % (i + 1);
        deck.swap(i, r);
    }
}

fn random_game_state(seed: u32) -> GameState {
    let mut deck = standard_deck();
    shuffle_deck(&mut deck, seed);
    GameState::new(deck)
}

#[test]
fn demo_random_tableaus_moves() {
    println!("\n=== moves::demo_random_tableaus_moves ===");

    let seeds = [42_u32, 123456789_u32, 2025_u32];

    for (i, &seed) in seeds.iter().enumerate() {
        println!("\n--- Game {} (seed = {}) ---", i + 1, seed);

        let mut game = random_game_state(seed);

        let tab_initial = game.current_tableau();
        println!("\nInitial tableau (move stack is empty):");
        println!("{}", render_tableau(&tab_initial));
        println!("Move stack length: {}", game.move_count());
        println!("Move stack contents: []");
        println!("Tableau hash: 0x{:016x}", game.tableau_hash);

        let moves_initial = generate_legal_moves(&tab_initial);
        println!("Legal moves in initial layout ({} total):", moves_initial.len());
        for (j, mv) in moves_initial.iter().enumerate() {
            println!("  {:2}: {}", j + 1, mv.describe(&tab_initial));
        }

        game.apply_move(Move { kind: MoveKind::DealFromStock });
        let tab_draw = game.current_tableau();
        println!("\nAfter one draw-from-stock (move stack has one entry):");
        println!("{}", render_tableau(&tab_draw));
        println!("Move stack length: {}", game.move_count());
        println!("Move stack contents:");
        for (idx, mv) in game.moves.iter().enumerate() {
            println!("  {:2}: {:?}", idx + 1, mv.kind);
        }
        println!("Tableau hash: 0x{:016x}", game.tableau_hash);

        let moves_draw = generate_legal_moves(&tab_draw);
        println!("Legal moves after one draw-from-stock ({} total):", moves_draw.len());
        for (j, mv) in moves_draw.iter().enumerate() {
            println!("  {:2}: {}", j + 1, mv.describe(&tab_draw));
        }
    }
}

#[test]
fn valid_and_invalid_runs() {
    // Build a small column manually: 8S, 7H, 6C (valid run), then 5C
    // (breaks color). Stored bottom-to-top.
    let col_cards = vec![
        Card::new(Suit::Spades, Rank::Eight),
        Card::new(Suit::Hearts, Rank::Seven),
        Card::new(Suit::Clubs, Rank::Six),
        Card::new(Suit::Clubs, Rank::Five),
    ];

    assert!(is_valid_run(&col_cards[0..3]));
    assert!(!is_valid_run(&col_cards[0..4]));
}

#[test]
fn moves_valid_and_invalid_runs() {
    let col_cards = vec![
        Card::new(Suit::Spades, Rank::Eight),
        Card::new(Suit::Hearts, Rank::Seven),
        Card::new(Suit::Clubs, Rank::Six),
        Card::new(Suit::Clubs, Rank::Five),
    ];

    assert!(is_valid_run(&col_cards[0..3]));
    assert!(!is_valid_run(&col_cards[0..4]));
}

#[test]
fn moving_last_face_up_card_flips_hidden_card() {
    let mut tab = Tableau::new_empty();

    // Column 0: three face-down cards, then one face-up.
    let col0 = &mut tab.columns[0];
    col0.push(Card::new(Suit::Hearts, Rank::Ace), true);
    col0.push(Card::new(Suit::Clubs, Rank::Two), true);
    col0.push(Card::new(Suit::Spades, Rank::Three), true);
    col0.push(Card::new(Suit::Diamonds, Rank::Four), false);

    assert_eq!(col0.len(), 4);
    assert_eq!(col0.num_face_down(), 3);
    assert_eq!(col0.num_face_up(), 1);

    // Column 1: empty destination pile.
    let _col1 = &mut tab.columns[1];

    // Move the single face-up card (the run starting at index 3) from
    // column 0 to column 1.
    let mv = Move {
        kind: MoveKind::ColumnToColumn { src_col: 0, src_index: 3, dst_col: 1 },
    };
    mv.apply(&mut tab);

    let col0_after = &tab.columns[0];
    assert_eq!(col0_after.len(), 3, "one card removed from column 0");
    assert_eq!(
        col0_after.num_face_down(),
        2,
        "one of the previously hidden cards should have flipped face-up"
    );
    assert_eq!(
        col0_after.num_face_up(),
        1,
        "exactly one face-up card should remain after the automatic flip"
    );
}

#[test]
fn moving_last_face_up_card_flips_hidden_column_to_column() {
    let mut tab = Tableau::new_empty();

    // Column 0: 2 hidden cards, 1 face-up card on top.
    let col0 = &mut tab.columns[0];
    col0.push(Card::new(Suit::Spades, Rank::Three), true);
    col0.push(Card::new(Suit::Spades, Rank::Four), true);
    col0.push(Card::new(Suit::Hearts, Rank::Five), false);

    let mv = Move {
        kind: MoveKind::ColumnToColumn { src_col: 0, src_index: 2, dst_col: 1 },
    };
    mv.apply(&mut tab);

    let col0 = &tab.columns[0];
    assert_eq!(col0.len(), 2, "source column should have 2 cards left");
    assert_eq!(
        col0.num_face_down(),
        1,
        "previously hidden top card should now be face-up",
    );
}

#[test]
fn moving_last_face_up_card_flips_hidden_column_to_foundation() {
    let mut tab = Tableau::new_empty();

    // Column 0: 2 hidden cards, AH face-up on top.
    let col0 = &mut tab.columns[0];
    col0.push(Card::new(Suit::Spades, Rank::Three), true);
    col0.push(Card::new(Suit::Spades, Rank::Four), true);
    col0.push(Card::new(Suit::Hearts, Rank::Ace), false);

    // Empty foundation; the ace is next.
    let f_idx = foundation_index_for(Card::new(Suit::Hearts, Rank::Ace));
    tab.foundations[f_idx] = 0;

    let mv = Move { kind: MoveKind::ColumnToFoundation { src_col: 0 } };
    mv.apply(&mut tab);

    let col0 = &tab.columns[0];
    assert_eq!(col0.len(), 2, "source column should have 2 cards left");
    assert_eq!(
        col0.num_face_down(),
        1,
        "previously hidden top card should now be face-up",
    );
}

#[test]
fn foundation_move_logic() {
    let mut tab = Tableau::new_empty();

    // Start with empty foundations: only Aces should be placeable.
    let ah = Card::new(Suit::Hearts, Rank::Ace);
    let two_h = Card::new(Suit::Hearts, Rank::Two);
    assert!(can_move_to_foundation(&tab, ah));
    assert!(!can_move_to_foundation(&tab, two_h));

    // Pretend AH is on the foundation; now 2H should be placeable.
    let f_idx = foundation_index_for(ah);
    tab.foundations[f_idx] = 1;
    assert!(can_move_to_foundation(&tab, two_h));
}

#[test]
fn moves_foundation_move_logic() {
    let mut tab = Tableau::new_empty();

    let ah = Card::new(Suit::Hearts, Rank::Ace);
    let two_h = Card::new(Suit::Hearts, Rank::Two);
    assert!(can_move_to_foundation(&tab, ah));
    assert!(!can_move_to_foundation(&tab, two_h));

    let f_idx = foundation_index_for(ah);
    tab.foundations[f_idx] = 1;
    assert!(can_move_to_foundation(&tab, two_h));
}

#[test]
fn move_application_conserves_total_cards() {
    // From a dealt position, apply every legal move to a fresh copy
    // and check the 52-card total is conserved; then walk a few plies
    // deep along the first legal move.
    let deck = klondike::card::shuffled_deck_from_seed(99);
    let mut tab = Tableau::deal_from_shuffled(&deck);
    for _ply in 0..8 {
        let moves = generate_legal_moves(&tab);
        for mv in &moves {
            let mut copy = tab.clone();
            mv.apply(&mut copy);
            assert_eq!(copy.total_cards(), 52);
        }
        if moves.is_empty() {
            break;
        }
        moves[0].apply(&mut tab);
        assert_eq!(tab.total_cards(), 52);
    }
}

#[test]
fn describe_names_cards_and_piles() {
    let deck = standard_deck();
    let tab = Tableau::deal_from_shuffled(&deck);
    let deal = Move { kind: MoveKind::DealFromStock };
    assert_eq!(deal.describe(&tab), "Deal from Stock (draw up to 3 cards)");
    let redeal = Move { kind: MoveKind::RedealStock };
    assert_eq!(redeal.describe(&tab), "Redeal Stock from Waste");

    // With the standard ordered deck, column 1's face-up card is the
    // card at deal position 26, which is AS (index 26).
    assert_eq!(deck[26].0, 26);
    let mv = Move { kind: MoveKind::ColumnToFoundation { src_col: 1 } };
    assert_eq!(mv.describe(&tab), "Column 2: AS -> Foundation(Spades)");

    assert_eq!(CARDS_PER_DECK, 52);
}
