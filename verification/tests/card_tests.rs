use klondike::card::{
    is_one_lower_opposite_color, shuffled_deck_from_seed, standard_deck, Card, Rank, Suit,
    CARDS_PER_DECK,
};

fn all_suits() -> Vec<Suit> {
    vec![Suit::Hearts, Suit::Clubs, Suit::Spades, Suit::Diamonds]
}

fn all_ranks() -> Vec<Rank> {
    vec![
        Rank::Ace,
        Rank::Two,
        Rank::Three,
        Rank::Four,
        Rank::Five,
        Rank::Six,
        Rank::Seven,
        Rank::Eight,
        Rank::Nine,
        Rank::Ten,
        Rank::Jack,
        Rank::Queen,
        Rank::King,
    ]
}

#[test]
fn card_index_round_trip() {
    for &suit in all_suits().iter() {
        for &rank in all_ranks().iter() {
            let c = Card::new(suit, rank);
            assert!(c.index() < CARDS_PER_DECK);
            assert_eq!(c.suit(), suit);
            assert_eq!(c.rank(), rank);

            let idx = c.index();
            let c2 = Card::from_index(idx);
            assert_eq!(c2, c);
        }
    }
}

#[test]
fn suit_from_u8_and_short_char() {
    assert_eq!(Suit::from_u8(0), Suit::Hearts);
    assert_eq!(Suit::from_u8(1), Suit::Clubs);
    assert_eq!(Suit::from_u8(2), Suit::Spades);
    assert_eq!(Suit::from_u8(3), Suit::Diamonds);

    assert_eq!(Suit::Hearts.short_char(), 'H');
    assert_eq!(Suit::Clubs.short_char(), 'C');
    assert_eq!(Suit::Spades.short_char(), 'S');
    assert_eq!(Suit::Diamonds.short_char(), 'D');
}

#[test]
fn rank_from_u8_and_number() {
    for (i, &rank) in all_ranks().iter().enumerate() {
        assert_eq!(Rank::from_u8(i as u8), rank);
        assert_eq!(rank.number(), i as u8 + 1);
    }
}

#[test]
fn card_colors_are_correct() {
    // Hearts & Diamonds are red
    for rank in all_ranks().iter().copied() {
        let h = Card::new(Suit::Hearts, rank);
        let d = Card::new(Suit::Diamonds, rank);
        assert_eq!(h.color(), 'R');
        assert_eq!(d.color(), 'R');
    }

    // Clubs & Spades are black
    for rank in all_ranks().iter().copied() {
        let c = Card::new(Suit::Clubs, rank);
        let s = Card::new(Suit::Spades, rank);
        assert_eq!(c.color(), 'B');
        assert_eq!(s.color(), 'B');
    }
}

#[test]
fn short_str_and_display() {
    let ah = Card::new(Suit::Hearts, Rank::Ace);
    let td = Card::new(Suit::Diamonds, Rank::Ten);
    let ks = Card::new(Suit::Spades, Rank::King);
    let seven_clubs = Card::new(Suit::Clubs, Rank::Seven);

    assert_eq!(ah.short_str(), "AH");
    assert_eq!(td.short_str(), "TD");
    assert_eq!(ks.short_str(), "KS");
    assert_eq!(seven_clubs.short_str(), "7C");

    // The short string is the card's display form.
    assert_eq!(format!("{}", ah.short_str()), "AH");
    assert_eq!(format!("{}", td.short_str()), "TD");
    assert_eq!(format!("{}", ks.short_str()), "KS");
    assert_eq!(format!("{}", seven_clubs.short_str()), "7C");
}

#[test]
fn standard_deck_has_52_unique_cards() {
    let deck = standard_deck();
    assert_eq!(deck.len(), CARDS_PER_DECK as usize);

    // Ensure all indices 0..51 appear exactly once.
    let mut seen = [false; CARDS_PER_DECK as usize];
    for card in deck.iter() {
        let idx = card.index() as usize;
        assert!(!seen[idx], "duplicate card index {idx}");
        seen[idx] = true;
    }

    assert!(seen.iter().all(|&b| b));
}

#[test]
fn klondike_run_rule_helper() {
    let eight_hearts = Card::new(Suit::Hearts, Rank::Eight);
    let seven_spades = Card::new(Suit::Spades, Rank::Seven);
    let seven_hearts = Card::new(Suit::Hearts, Rank::Seven);

    assert!(is_one_lower_opposite_color(seven_spades, eight_hearts));
    assert!(!is_one_lower_opposite_color(seven_hearts, eight_hearts));
}

#[test]
fn shuffled_deck_is_a_permutation_and_deterministic() {
    let a = shuffled_deck_from_seed(42);
    let b = shuffled_deck_from_seed(42);
    let c = shuffled_deck_from_seed(43);
    assert_eq!(a.len(), 52);
    let mut seen = [false; 52];
    for card in a.iter() {
        assert!(!seen[card.0 as usize]);
        seen[card.0 as usize] = true;
    }
    assert_eq!(
        a.iter().map(|x| x.0).collect::<Vec<_>>(),
        b.iter().map(|x| x.0).collect::<Vec<_>>()
    );
    assert_ne!(
        a.iter().map(|x| x.0).collect::<Vec<_>>(),
        c.iter().map(|x| x.0).collect::<Vec<_>>()
    );
}
