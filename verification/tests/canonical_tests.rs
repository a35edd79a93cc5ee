use klondike::canonical_decks::{
    accessible_stock_indices, accessible_tableau_indices, canonical_easy_win_deck,
    canonical_unplayable_deck, canonical_unsolvable_but_playable_deck,
    is_unplayable_by_local_conditions,
};
use klondike::card::Card;

fn check_is_permutation(deck: &Vec<Card>) {
    let mut seen = [false; 52];
    for &c in deck.iter() {
        let idx = c.0 as usize;
        assert!(idx < 52, "Card index out of range: {} -> {}", c.short_str(), idx);
        assert!(!seen[idx], "Duplicate card in deck: {} (index {})", c.short_str(), idx);
        seen[idx] = true;
    }
    for (i, used) in seen.iter().enumerate() {
        assert!(*used, "Missing card with index {}", i);
    }
}

#[test]
fn unplayable_deck_satisfies_local_conditions() {
    let deck = canonical_unplayable_deck();
    assert_eq!(deck.len(), 52);

    assert!(
        is_unplayable_by_local_conditions(&deck),
        "constructed deck does not satisfy local unplayable conditions"
    );

    println!("=== canonical_unplayable_deck ===");
    println!("Accessible tableau indices:  {:?}", accessible_tableau_indices());
    println!("Accessible stock indices:    {:?}", accessible_stock_indices());

    let tab_idxs = accessible_tableau_indices();
    let stock_idxs = accessible_stock_indices();

    println!("\nAccessible tableau cards (top of each column after deal):");
    for (i, idx) in tab_idxs.iter().enumerate() {
        let c = deck[*idx];
        println!("  T{} @ deck[{:02}]: {}", i + 1, idx, c.short_str());
    }

    println!("\nAccessible stock cards (waste-top reachable cards):");
    for (i, idx) in stock_idxs.iter().enumerate() {
        let c = deck[*idx];
        println!("  S{} @ deck[{:02}]: {}", i + 1, idx, c.short_str());
    }

    println!("\nFull deck order (index: card):");
    for (i, c) in deck.iter().enumerate() {
        println!("{:02}: {}", i, c.short_str());
    }
}

#[test]
fn canonical_decks_are_valid_permutations() {
    let unplayable = canonical_unplayable_deck();
    let easy = canonical_easy_win_deck();
    let hard = canonical_unsolvable_but_playable_deck();

    check_is_permutation(&unplayable);
    check_is_permutation(&easy);
    check_is_permutation(&hard);
}
