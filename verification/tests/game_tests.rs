use klondike::card::{shuffled_deck_from_seed, standard_deck};
use klondike::game::{hash_tableau64, GameState};
use klondike::moves::{Move, MoveKind};
use klondike::stats::Stats;
use klondike::tableau::Tableau;

#[test]
fn new_game_state_starts_at_the_deal() {
    let deck = standard_deck();
    let game = GameState::new(deck.clone());
    assert!(game.is_at_initial());
    assert_eq!(game.move_count(), 0);
    assert_eq!(game.initial_deck, deck);
    assert_eq!(game.current_tableau().total_cards(), 52);
    assert!(game.termination_reason.is_none());
}

#[test]
fn apply_move_updates_cache_and_history() {
    let deck = shuffled_deck_from_seed(11);
    let mut game = GameState::new(deck);
    let h0 = game.tableau_hash;
    game.apply_move(Move { kind: MoveKind::DealFromStock });
    assert_eq!(game.move_count(), 1);
    assert!(!game.is_at_initial());
    assert_ne!(game.tableau_hash, h0, "drawing three cards must change the fingerprint");
    assert_eq!(game.current_tableau().waste.len(), 3);
}

#[test]
fn recompute_matches_cached_tableau() {
    let deck = shuffled_deck_from_seed(5);
    let mut game = GameState::new(deck);
    for _i in 0..5 {
        let moves = klondike::moves::generate_legal_moves(&game.current_tableau());
        if moves.is_empty() {
            break;
        }
        game.apply_move(moves[0]);
    }
    let replayed = game.recompute_tableau_from_history();
    assert_eq!(hash_tableau64(&replayed), game.tableau_hash);
}

#[test]
fn from_parts_replays_the_history() {
    let deck = shuffled_deck_from_seed(21);
    let mut game = GameState::new(deck.clone());
    game.apply_move(Move { kind: MoveKind::DealFromStock });
    game.apply_move(Move { kind: MoveKind::DealFromStock });
    let rebuilt = GameState::from_parts(deck, game.moves.clone());
    assert_eq!(rebuilt.tableau_hash, game.tableau_hash);
    assert_eq!(rebuilt.move_count(), 2);
}

#[test]
fn fingerprint_is_deterministic_and_sensitive() {
    let deck = shuffled_deck_from_seed(77);
    let t1 = Tableau::deal_from_shuffled(&deck);
    let t2 = Tableau::deal_from_shuffled(&deck);
    assert_eq!(hash_tableau64(&t1), hash_tableau64(&t2));

    // Swapping the identities of two hidden cards changes the
    // fingerprint: hidden cards are part of a position's identity.
    let mut t3 = t1.clone();
    let a = t3.columns[6].cards[0];
    let b = t3.columns[6].cards[1];
    t3.columns[6].cards[0] = b;
    t3.columns[6].cards[1] = a;
    assert_ne!(hash_tableau64(&t1), hash_tableau64(&t3));
}

#[test]
fn stats_counters_accumulate() {
    let mut s = Stats::default();
    assert_eq!(s.games_played, 0);
    s.record_win();
    s.record_loss();
    s.record_loss();
    assert_eq!(s.games_played, 3);
    assert_eq!(s.games_won, 1);
    assert_eq!(s.games_lost, 2);
}
