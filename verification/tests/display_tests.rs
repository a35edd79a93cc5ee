use klondike::card::{standard_deck, Card, Rank, Suit};
use klondike::display::{
    format_card_visible, render_columns, render_foundations, render_stock_and_waste,
};
use klondike::tableau::{Tableau, NUM_COLS};

/// Very small deterministic shuffler for tests: "random-looking" but
/// fully reproducible decks.
fn shuffle_deck(deck: &mut Vec<Card>, mut state: u32) {
    fn lcg(state: &mut u32) -> u32 {
        *state = state.wrapping_mul(1664525).wrapping_add(1013904223);
        *state
    }

    let len = deck.len();
    for i in (1..len).rev() {
        let r = (lcg(&mut state) as usize) % (i + 1);
        deck.swap(i, r);
    }
}

/// Compute the grid the program should be displaying for the tableau
/// columns, without using `render_columns`.
fn expected_column_grid(tab: &Tableau) -> Vec<Vec<String>> {
    let max_height: usize = tab.columns.iter().map(|c| c.len()).max().unwrap_or(0);

    let mut grid = vec![vec![String::new(); NUM_COLS]; max_height];

    for (col_idx, col) in tab.columns.iter().enumerate() {
        let h = col.len();

        for row in 0..max_height {
            if row >= h {
                grid[row][col_idx] = String::new();
            } else {
                let card = col.cards[row];
                let face_down = row < col.num_face_down();
                grid[row][col_idx] = format_card_visible(card, !face_down);
            }
        }
    }

    grid
}

/// Parse the string produced by `render_columns` back into a grid of
/// per-cell strings.
fn parse_rendered_column_grid(rendered: &str) -> Vec<Vec<String>> {
    let lines: Vec<&str> = rendered.lines().collect();
    if lines.len() <= 2 {
        return Vec::new();
    }
    let body = &lines[2..];
    let max_height = body.len();
    let mut grid = vec![vec![String::new(); NUM_COLS]; max_height];

    let base_offset = 6;
    for (row_idx, line) in body.iter().enumerate() {
        for col_idx in 0..NUM_COLS {
            let start = base_offset + 4 * col_idx;
            if start >= line.len() {
                grid[row_idx][col_idx] = String::new();
                continue;
            }
            let end = (start + 4).min(line.len());
            let cell = &line[start..end];
            grid[row_idx][col_idx] = cell.trim().to_string();
        }
    }

    grid
}

#[test]
fn display_random_initial_tableau_matches_internal_grid() {
    println!("\n=== display::display_random_initial_tableau_matches_internal_grid ===");

    let mut deck = standard_deck();
    shuffle_deck(&mut deck, 123456789);

    let tab = Tableau::deal_from_shuffled(&deck);

    let rendered = render_columns(&tab);
    println!("\nRendered columns (what a human sees):\n{}", rendered);

    let expected_grid = expected_column_grid(&tab);
    println!("Internal expectation (top->bottom rows, per column):");
    for (row_idx, row) in expected_grid.iter().enumerate() {
        let mut line = format!("row {:2}: ", row_idx);
        for cell in row {
            if cell.is_empty() {
                line.push_str("    ");
            } else {
                line.push_str(&format!("{:>3} ", cell));
            }
        }
        println!("{line}");
    }

    let parsed_grid = parse_rendered_column_grid(&rendered);
    assert_eq!(parsed_grid, expected_grid);
}

#[test]
fn display_stock_and_waste_matches_internal_state() {
    println!("\n=== display::display_stock_and_waste_matches_internal_state ===");

    let mut tab = Tableau::new_empty();

    // Case 1: both empty.
    let line = render_stock_and_waste(&tab);
    println!("Case 1 (both empty): {}", line);
    assert!(line.contains("Stock: [empty]"));
    assert!(line.contains("Waste: [empty]"));

    // Case 2: some stock, empty waste.
    tab.stock.push(Card::new(Suit::Hearts, Rank::Ace));
    tab.stock.push(Card::new(Suit::Clubs, Rank::Two));
    let line = render_stock_and_waste(&tab);
    println!("Case 2 (2 in stock, empty waste): {}", line);
    assert!(line.contains("Stock: [2 cards]"));
    assert!(line.contains("Waste: [empty]"));

    // Case 3: non-empty waste with a known top card.
    tab.waste.push(Card::new(Suit::Spades, Rank::Three));
    tab.waste.push(Card::new(Suit::Diamonds, Rank::Four));
    let line = render_stock_and_waste(&tab);
    println!("Case 3 (2 in stock, 2 in waste): {}", line);
    assert!(line.contains("(2 cards)"));
}

#[test]
fn display_foundations_show_top_cards() {
    println!("\n=== display::display_foundations_show_top_cards ===");

    let mut tab = Tableau::new_empty();

    // Simulate some arbitrary foundation progress: 0..=13.
    tab.foundations = vec![0, 1, 5, 13];

    // Compute expected top-card strings using the same internal
    // logic: suit from index, rank from number.
    let mut expected_tops: Vec<String> = Vec::new();
    for (i, &rank_num) in tab.foundations.iter().enumerate() {
        if rank_num == 0 {
            expected_tops.push(String::from("[  ]"));
        } else {
            let suit = Suit::from_u8(i as u8);
            let rank = Rank::from_u8(rank_num - 1);
            let card = Card::new(suit, rank);
            expected_tops.push(format!("[{}]", card.short_str()));
        }
    }

    let line = render_foundations(&tab);
    println!("Foundations line: {}", line);
    println!("Internal expectation for each foundation slot: {:?}", expected_tops);

    for top in expected_tops {
        assert!(line.contains(&top));
    }
}
