use klondike::card::{standard_deck, Card, Rank, Suit, CARDS_PER_DECK};
use klondike::tableau::{Column, Tableau, MAX_STOCK, NUM_FOUNDATIONS};

#[test]
fn empty_tableau_has_no_cards_and_is_not_win() {
    let t = Tableau::new_empty();
    assert_eq!(t.total_cards(), 0);
    assert!(!t.is_win());
    assert_eq!(t.stock.len(), 0);
    assert_eq!(t.waste.len(), 0);
    for col in &t.columns {
        assert_eq!(col.len(), 0);
        assert_eq!(col.num_face_down(), 0);
    }
    for &f in &t.foundations {
        assert_eq!(f, 0);
    }
}

#[test]
fn is_win_detects_all_foundations_complete() {
    let mut t = Tableau::new_empty();
    t.foundations = vec![13; NUM_FOUNDATIONS];
    assert!(t.is_win());
    assert_eq!(t.total_cards(), 52);
}

#[test]
fn deal_from_standard_deck_initial_klondike_layout() {
    let deck = standard_deck();
    let t = Tableau::deal_from_shuffled(&deck);

    // All 52 cards must be present exactly once.
    assert_eq!(t.total_cards(), CARDS_PER_DECK);

    // Foundations & waste are empty initially.
    assert_eq!(t.waste.len(), 0);
    assert!(t.foundations.iter().all(|&r| r == 0));

    // Stock should hold 24 cards.
    assert_eq!(t.stock.len(), MAX_STOCK);

    // Columns: sizes 1..=7, with 0..=6 face-down each.
    for (i, col) in t.columns.iter().enumerate() {
        let expected_len = i + 1;
        assert_eq!(col.len(), expected_len);
        assert_eq!(col.num_face_down(), expected_len - 1);
        assert_eq!(col.num_face_up(), 1);
    }

    // Check that every card index 0..51 appears exactly once
    // across columns and stock (foundations & waste are empty).
    let mut seen = [false; CARDS_PER_DECK as usize];

    // Columns
    for col in &t.columns {
        for card in col.iter_all() {
            let idx = card.0 as usize;
            assert!(!seen[idx], "duplicate card index {idx} in columns");
            seen[idx] = true;
        }
    }

    // Stock
    for card in t.stock.iter() {
        let idx = card.0 as usize;
        assert!(!seen[idx], "duplicate card index {idx} in stock");
        seen[idx] = true;
    }

    assert!(seen.iter().all(|&b| b), "some card indices were not dealt");

    // Spot-check: the next card drawn from the stock is the first
    // undealt card of the deck, and the last deck card sits at the
    // bottom of the stock.
    let top_stock = t.stock.top().unwrap();
    assert_eq!(top_stock, deck[28]);
    let last_deck = deck[(CARDS_PER_DECK as usize) - 1];
    assert_eq!(t.stock.cards[0], last_deck);
}

#[test]
fn column_face_up_and_face_down_counts() {
    let mut col: Column = Column::new();

    // Push three face-down and two face-up.
    col.push(Card::new(Suit::Hearts, Rank::Ace), true);
    col.push(Card::new(Suit::Clubs, Rank::Two), true);
    col.push(Card::new(Suit::Spades, Rank::Three), true);
    col.push(Card::new(Suit::Diamonds, Rank::Four), false);
    col.push(Card::new(Suit::Hearts, Rank::Five), false);

    assert_eq!(col.len(), 5);
    assert_eq!(col.num_face_down(), 3);
    assert_eq!(col.num_face_up(), 2);

    let face_up: Vec<String> = col.iter_face_up().iter().map(|c| c.short_str()).collect();

    // Two face-up cards: "4D" and "5H"
    assert_eq!(face_up, vec!["4D".to_string(), "5H".to_string()]);
}

#[test]
fn deal_then_flatten_conserves_the_deck() {
    let deck = klondike::card::shuffled_deck_from_seed(7);
    let t = Tableau::deal_from_shuffled(&deck);
    let flat = t.flatten_cards();
    assert_eq!(flat.len(), 52);
    let mut a: Vec<u8> = deck.iter().map(|c| c.0).collect();
    let mut b: Vec<u8> = flat.iter().map(|c| c.0).collect();
    a.sort();
    b.sort();
    assert_eq!(a, b);
}
