use klondike::pysol_decks::{
    deck_from_pysol_seed_str, extract_decks_from_text, is_deck_chars_only,
    parse_bracketed_deck_list, seeds_from_text,
};

fn identity_list() -> String {
    let nums: Vec<String> = (0..52).map(|i: u8| i.to_string()).collect();
    format!("[{}]", nums.join(", "))
}

#[test]
fn parse_accepts_a_full_permutation() {
    let deck = parse_bracketed_deck_list(&identity_list()).unwrap();
    assert_eq!(deck.len(), 52);
    for (i, c) in deck.iter().enumerate() {
        assert_eq!(c.0 as usize, i);
    }
}

#[test]
fn parse_reports_each_error() {
    assert_eq!(parse_bracketed_deck_list("1, 2, 3]").unwrap_err(), "missing '['");
    assert_eq!(parse_bracketed_deck_list("[1, 2, 3").unwrap_err(), "missing ']'");
    assert_eq!(parse_bracketed_deck_list("] [").unwrap_err(), "malformed [...] list");
    assert_eq!(
        parse_bracketed_deck_list("[1, x, 3]").unwrap_err(),
        "could not parse a deck entry as u8"
    );
    assert_eq!(
        parse_bracketed_deck_list("[1, 2, 3]").unwrap_err(),
        "deck list must have exactly 52 numbers"
    );

    let mut big: Vec<String> = (0..51).map(|i: u8| i.to_string()).collect();
    big.push("99".to_string());
    let over = format!("[{}]", big.join(","));
    assert_eq!(parse_bracketed_deck_list(&over).unwrap_err(), "card index out of range 0..=51");

    let mut dup: Vec<String> = (0..51).map(|i: u8| i.to_string()).collect();
    dup.push("50".to_string());
    let dupped = format!("[{}]", dup.join(","));
    assert_eq!(parse_bracketed_deck_list(&dupped).unwrap_err(), "duplicate card index");
}

#[test]
fn deck_chars_filter_works() {
    assert!(is_deck_chars_only("[1, 2,\n 3]"));
    assert!(!is_deck_chars_only("[1, a, 3]"));
}

#[test]
fn extract_finds_lists_and_labels() {
    let text = format!(
        "shuffled talon for game 1310\n{}\nnoise [not a deck] more\nseed 42\n{}\n",
        identity_list(),
        identity_list()
    );
    let decks = extract_decks_from_text(&text, "file");
    assert_eq!(decks.len(), 2);
    assert_eq!(decks[0].label, "1310");
    assert_eq!(decks[1].label, "42");
    for spec in &decks {
        assert_eq!(spec.deck.len(), 52);
    }

    let unlabeled = extract_decks_from_text(&identity_list(), "file");
    assert_eq!(unlabeled.len(), 1);
    assert_eq!(unlabeled[0].label, "file#1");
}

#[test]
fn seed_decks_are_permutations_and_deterministic() {
    // An ms seed drives the 31-bit generator.
    let a = deck_from_pysol_seed_str("ms12345").unwrap();
    let b = deck_from_pysol_seed_str("ms12345").unwrap();
    assert_eq!(a.label, "seed:ms12345");
    assert_eq!(
        a.deck.iter().map(|c| c.0).collect::<Vec<_>>(),
        b.deck.iter().map(|c| c.0).collect::<Vec<_>>()
    );
    let mut seen = [false; 52];
    for c in a.deck.iter() {
        assert!(!seen[c.0 as usize]);
        seen[c.0 as usize] = true;
    }

    // A small numeric seed also drives the 31-bit generator.
    let small = deck_from_pysol_seed_str("123").unwrap();
    assert_eq!(small.label, "seed:123");

    // A large numeric seed keys the Mersenne Twister; leading zeros
    // and separators do not change the value, so the deals agree.
    let big1 = deck_from_pysol_seed_str("13101775566348840960").unwrap();
    let big2 = deck_from_pysol_seed_str("0013,101,775,566,348,840,960").unwrap();
    assert_eq!(big1.label, "seed:13101775566348840960");
    assert_eq!(big2.label, "seed:13101775566348840960");
    assert_eq!(
        big1.deck.iter().map(|c| c.0).collect::<Vec<_>>(),
        big2.deck.iter().map(|c| c.0).collect::<Vec<_>>()
    );
    let mut seen = [false; 52];
    for c in big1.deck.iter() {
        assert!(!seen[c.0 as usize]);
        seen[c.0 as usize] = true;
    }

    // Different seeds give different deals.
    let other = deck_from_pysol_seed_str("13101775566348840961").unwrap();
    assert_ne!(
        big1.deck.iter().map(|c| c.0).collect::<Vec<_>>(),
        other.deck.iter().map(|c| c.0).collect::<Vec<_>>()
    );
}

#[test]
fn seed_errors_are_reported() {
    assert_eq!(deck_from_pysol_seed_str("").unwrap_err(), "empty seed");
    assert_eq!(deck_from_pysol_seed_str("msx").unwrap_err(), "invalid ms seed");
    assert_eq!(deck_from_pysol_seed_str("ms").unwrap_err(), "invalid ms seed");
    assert_eq!(
        deck_from_pysol_seed_str("ms99999999999999999999").unwrap_err(),
        "could not parse ms seed"
    );
    assert_eq!(
        deck_from_pysol_seed_str("12a4").unwrap_err(),
        "seed contains non-digits after normalization"
    );
    // The 31-bit generator rejects zero and anything above its range.
    assert_eq!(deck_from_pysol_seed_str("0").unwrap_err(), "ms seed out of range");
    assert_eq!(deck_from_pysol_seed_str("ms0").unwrap_err(), "ms seed out of range");
}

#[test]
fn seeds_file_lines_are_parsed() {
    let text = "# a comment\n\nms777   # trailing comment\n123L\n";
    let decks = seeds_from_text(text).unwrap();
    assert_eq!(decks.len(), 2);
    assert_eq!(decks[0].label, "seed:ms777");
    assert_eq!(decks[1].label, "seed:123");

    let bad = seeds_from_text("ms777\nnot-a-seed\n");
    assert!(bad.is_err());
}
