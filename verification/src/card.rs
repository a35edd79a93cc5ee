//! Card, Suit, and Rank types for a standard 52-card deck.
//!
//! A `Card` is a compact 1-byte value in `0..52`, with
//! `index = suit * 13 + rank` (rank 0 is the Ace, rank 12 the King).

use vstd::prelude::*;

verus! {

/// Number of suits in a standard deck.
pub const NUM_SUITS: u8 = 4;
/// Number of ranks in a standard deck.
pub const NUM_RANKS: u8 = 13;
/// Number of cards in a standard deck.
pub const CARDS_PER_DECK: u8 = NUM_SUITS * NUM_RANKS;

/// A playing card represented compactly as an index in `0..52`.
///
/// The mapping is `index = suit * 13 + rank`, where `rank` is
/// 0 = Ace, 1 = Two, ..., 12 = King.
#[derive(Clone, Copy, PartialEq, Eq, Structural, Debug, Hash)]
pub struct Card(pub u8);

/// The four suits in a standard deck, in the crate's fixed order.
#[derive(Clone, Copy, PartialEq, Eq, Structural, Debug, Hash)]
pub enum Suit {
    Hearts,
    Clubs,
    Spades,
    Diamonds,
}

/// The thirteen ranks in a standard deck; Ace is the lowest rank.
#[derive(Clone, Copy, PartialEq, Eq, Structural, Debug, Hash, PartialOrd, Ord)]
pub enum Rank {
    Ace,
    Two,
    Three,
    Four,
    Five,
    Six,
    Seven,
    Eight,
    Nine,
    Ten,
    Jack,
    Queen,
    King,
}

/// The small integer behind a suit: Hearts 0, Clubs 1, Spades 2, Diamonds 3.
pub open spec fn suit_code_spec(s: Suit) -> u8 {
    match s {
        Suit::Hearts => 0,
        Suit::Clubs => 1,
        Suit::Spades => 2,
        Suit::Diamonds => 3,
    }
}

/// The small integer behind a rank: Ace 0 up to King 12.
pub open spec fn rank_code_spec(r: Rank) -> u8 {
    match r {
        Rank::Ace => 0,
        Rank::Two => 1,
        Rank::Three => 2,
        Rank::Four => 3,
        Rank::Five => 4,
        Rank::Six => 5,
        Rank::Seven => 6,
        Rank::Eight => 7,
        Rank::Nine => 8,
        Rank::Ten => 9,
        Rank::Jack => 10,
        Rank::Queen => 11,
        Rank::King => 12,
    }
}

/// A card value is valid when its index lies in `0..52`.
pub open spec fn card_valid(c: Card) -> bool {
    c.0 < CARDS_PER_DECK
}

/// Rank index of a card: 0 = Ace, ..., 12 = King.
pub open spec fn card_rank(c: Card) -> u8 {
    (c.0 % NUM_RANKS) as u8
}

/// Suit index of a card: 0 = Hearts, 1 = Clubs, 2 = Spades, 3 = Diamonds.
pub open spec fn card_suit(c: Card) -> u8 {
    (c.0 / NUM_RANKS) as u8
}

/// True when the card belongs to a red suit (hearts or diamonds).
pub open spec fn card_red(c: Card) -> bool {
    card_suit(c) == 0 || card_suit(c) == 3
}

/// The stacking rule for tableau columns: `upper` may sit directly on
/// `lower` when its rank is exactly one less and its color is opposite.
pub open spec fn one_lower_opposite_color(upper: Card, lower: Card) -> bool {
    &&& card_rank(upper) + 1 == card_rank(lower)
    &&& card_red(upper) != card_red(lower)
}

/// Exec mirror of `suit_code_spec`.
fn suit_code(s: Suit) -> (r: u8)
    ensures
        r == suit_code_spec(s),
{
    match s {
        Suit::Hearts => 0,
        Suit::Clubs => 1,
        Suit::Spades => 2,
        Suit::Diamonds => 3,
    }
}

/// Exec mirror of `rank_code_spec`.
fn rank_code(r: Rank) -> (v: u8)
    ensures
        v == rank_code_spec(r),
{
    match r {
        Rank::Ace => 0,
        Rank::Two => 1,
        Rank::Three => 2,
        Rank::Four => 3,
        Rank::Five => 4,
        Rank::Six => 5,
        Rank::Seven => 6,
        Rank::Eight => 7,
        Rank::Nine => 8,
        Rank::Ten => 9,
        Rank::Jack => 10,
        Rank::Queen => 11,
        Rank::King => 12,
    }
}

impl Card {
    /// Create a new card from a suit and a rank.
    pub fn new(suit: Suit, rank: Rank) -> (c: Card)
        ensures
            c.0 == suit_code_spec(suit) * NUM_RANKS + rank_code_spec(rank),
            card_valid(c),
            card_suit(c) == suit_code_spec(suit),
            card_rank(c) == rank_code_spec(rank),
    {
        let s = suit_code(suit);
        let r = rank_code(rank);
        let c = Card(s * NUM_RANKS + r);
        proof {
            lemma_card_parts(suit_code_spec(suit), rank_code_spec(rank));
        }
        c
    }

    /// Create a card from a raw index; an index outside `0..52` is a
    /// contract violation, not a reported error.
    pub fn from_index(index: u8) -> (c: Card)
        requires
            index < CARDS_PER_DECK,
        ensures
            c.0 == index,
    {
        Card(index)
    }

    /// The raw `0..52` index of this card.
    pub fn index(self) -> (r: u8)
        ensures
            r == self.0,
    {
        self.0
    }

    /// The suit of this card.
    pub fn suit(self) -> (s: Suit)
        requires
            card_valid(self),
        ensures
            suit_code_spec(s) == card_suit(self),
    {
        Suit::from_u8(self.0 / NUM_RANKS)
    }

    /// The rank of this card.
    pub fn rank(self) -> (r: Rank)
        ensures
            rank_code_spec(r) == card_rank(self),
    {
        Rank::from_u8(self.0 % NUM_RANKS)
    }

    /// Rank number in `1..=13` (Ace 1, King 13).
    pub fn rank_number(self) -> (n: u8)
        ensures
            n == card_rank(self) + 1,
    {
        self.0 % NUM_RANKS + 1
    }

    /// Short display string like `"AH"`, `"7C"`, `"TD"`, `"KS"`.
    pub fn short_str(self) -> (r: String)
        requires
            card_valid(self),
        ensures
            r@ == card_str(self),
    {
        let rank_c: char = if self.0 % NUM_RANKS == 0 {
            'A'
        } else if self.0 % NUM_RANKS == 1 {
            '2'
        } else if self.0 % NUM_RANKS == 2 {
            '3'
        } else if self.0 % NUM_RANKS == 3 {
            '4'
        } else if self.0 % NUM_RANKS == 4 {
            '5'
        } else if self.0 % NUM_RANKS == 5 {
            '6'
        } else if self.0 % NUM_RANKS == 6 {
            '7'
        } else if self.0 % NUM_RANKS == 7 {
            '8'
        } else if self.0 % NUM_RANKS == 8 {
            '9'
        } else if self.0 % NUM_RANKS == 9 {
            'T'
        } else if self.0 % NUM_RANKS == 10 {
            'J'
        } else if self.0 % NUM_RANKS == 11 {
            'Q'
        } else {
            'K'
        };
        let suit_c = self.suit().short_char();
        let mut r = String::new();
        crate::text::push_char(&mut r, rank_c);
        crate::text::push_char(&mut r, suit_c);
        proof {
            assert(r@ =~= card_str(self));
        }
        r
    }

    /// `'R'` for red suits, `'B'` for black suits.
    pub fn color(self) -> (c: char)
        requires
            card_valid(self),
        ensures
            c == (if card_red(self) { 'R' } else { 'B' }),
    {
        match self.suit() {
            Suit::Hearts | Suit::Diamonds => 'R',
            Suit::Clubs | Suit::Spades => 'B',
        }
    }
}

impl Suit {
    /// Construct a suit from a small integer in `0..4`; anything larger
    /// is a contract violation.
    pub fn from_u8(v: u8) -> (s: Suit)
        requires
            v < NUM_SUITS,
        ensures
            suit_code_spec(s) == v,
    {
        if v == 0 {
            Suit::Hearts
        } else if v == 1 {
            Suit::Clubs
        } else if v == 2 {
            Suit::Spades
        } else {
            Suit::Diamonds
        }
    }
}

impl Suit {
    /// Single-character representation: `'H'`, `'C'`, `'S'` or `'D'`.
    pub fn short_char(self) -> (c: char)
        ensures
            c == suit_char(suit_code_spec(self) as int),
    {
        match self {
            Suit::Hearts => 'H',
            Suit::Clubs => 'C',
            Suit::Spades => 'S',
            Suit::Diamonds => 'D',
        }
    }
}

impl Rank {
    /// Construct a rank from a small integer in `0..13`; anything larger
    /// is a contract violation.
    pub fn from_u8(v: u8) -> (r: Rank)
        requires
            v < NUM_RANKS,
        ensures
            rank_code_spec(r) == v,
    {
        if v == 0 {
            Rank::Ace
        } else if v == 1 {
            Rank::Two
        } else if v == 2 {
            Rank::Three
        } else if v == 3 {
            Rank::Four
        } else if v == 4 {
            Rank::Five
        } else if v == 5 {
            Rank::Six
        } else if v == 6 {
            Rank::Seven
        } else if v == 7 {
            Rank::Eight
        } else if v == 8 {
            Rank::Nine
        } else if v == 9 {
            Rank::Ten
        } else if v == 10 {
            Rank::Jack
        } else if v == 11 {
            Rank::Queen
        } else {
            Rank::King
        }
    }

    /// Rank number in `1..=13` (Ace 1, King 13).
    pub fn number(self) -> (n: u8)
        ensures
            n == rank_code_spec(self) + 1,
    {
        rank_code(self) + 1
    }
}

/// The display character of a rank index: `A`, `2`..`9`, `T`, `J`,
/// `Q`, `K`.
pub open spec fn rank_char(r: int) -> char {
    if r == 0 {
        'A'
    } else if r == 1 {
        '2'
    } else if r == 2 {
        '3'
    } else if r == 3 {
        '4'
    } else if r == 4 {
        '5'
    } else if r == 5 {
        '6'
    } else if r == 6 {
        '7'
    } else if r == 7 {
        '8'
    } else if r == 8 {
        '9'
    } else if r == 9 {
        'T'
    } else if r == 10 {
        'J'
    } else if r == 11 {
        'Q'
    } else {
        'K'
    }
}

/// The display character of a suit index: `H`, `C`, `S`, `D`.
pub open spec fn suit_char(s: int) -> char {
    if s == 0 {
        'H'
    } else if s == 1 {
        'C'
    } else if s == 2 {
        'S'
    } else {
        'D'
    }
}

/// The two-character display form of a card, rank then suit.
pub open spec fn card_str(c: Card) -> Seq<char> {
    seq![rank_char(card_rank(c) as int), suit_char(card_suit(c) as int)]
}

/// Decomposing `s * 13 + r` returns the suit `s` and rank `r` it was
/// built from.
proof fn lemma_card_parts(s: u8, r: u8)
    requires
        s < NUM_SUITS,
        r < NUM_RANKS,
    ensures
        ((s * NUM_RANKS + r) as u8) / NUM_RANKS == s,
        ((s * NUM_RANKS + r) as u8) % NUM_RANKS == r,
{
    assert((s * 13 + r) / 13 == s && (s * 13 + r) % 13 == r) by (nonlinear_arith)
        requires
            s < 4,
            r < 13,
    ;
}

/// Law: the suit/rank decomposition of card indices is a bijection.
/// Every raw index in `0..52` is rebuilt exactly by `suit * 13 + rank`,
/// and every (suit, rank) pair is recovered from the index it builds.
pub proof fn lemma_card_index_bijection()
    ensures
        forall|i: u8|
            i < CARDS_PER_DECK ==> #[trigger] card_suit(Card(i)) * NUM_RANKS + card_rank(Card(i))
                == i && card_suit(Card(i)) < NUM_SUITS && card_rank(Card(i)) < NUM_RANKS,
        forall|s: u8, r: u8|
            s < NUM_SUITS && r < NUM_RANKS ==> {
                &&& #[trigger] card_suit(Card((s * NUM_RANKS + r) as u8)) == s
                &&& card_rank(Card((s * NUM_RANKS + r) as u8)) == r
                &&& s * NUM_RANKS + r < CARDS_PER_DECK
            },
{
    assert forall|i: u8| i < CARDS_PER_DECK implies #[trigger] card_suit(Card(i)) * NUM_RANKS
        + card_rank(Card(i)) == i && card_suit(Card(i)) < NUM_SUITS && card_rank(Card(i))
        < NUM_RANKS by {
        assert(i / 13 < 4 && i % 13 < 13 && (i / 13) * 13 + i % 13 == i) by (nonlinear_arith)
            requires
                i < 52,
        ;
    }
    assert forall|s: u8, r: u8| s < NUM_SUITS && r < NUM_RANKS implies {
        &&& #[trigger] card_suit(Card((s * NUM_RANKS + r) as u8)) == s
        &&& card_rank(Card((s * NUM_RANKS + r) as u8)) == r
        &&& s * NUM_RANKS + r < CARDS_PER_DECK
    } by {
        lemma_card_parts(s, r);
        assert(s * 13 + r < 52) by (nonlinear_arith)
            requires
                s < 4,
                r < 13,
        ;
    }
}

/// The placement rule used by every other component: `upper` may sit
/// directly on `lower` in a column when it is one rank lower and of the
/// opposite color.
pub fn is_one_lower_opposite_color(upper: Card, lower: Card) -> (r: bool)
    requires
        card_valid(upper),
        card_valid(lower),
    ensures
        r == one_lower_opposite_color(upper, lower),
{
    upper.rank_number() + 1 == lower.rank_number() && upper.color() != lower.color()
}

/// Generate the standard 52-card deck: suits in the fixed order, each
/// suit's ranks from Ace to King, so card `i` has index `i`.
pub fn standard_deck() -> (deck: Vec<Card>)
    ensures
        deck@.len() == CARDS_PER_DECK,
        forall|i: int| 0 <= i < deck@.len() ==> (#[trigger] deck@[i]).0 == i,
{
    let mut deck: Vec<Card> = Vec::new();
    let mut i: u8 = 0;
    while i < CARDS_PER_DECK
        invariant
            i <= CARDS_PER_DECK,
            deck@.len() == i,
            forall|j: int| 0 <= j < deck@.len() ==> (#[trigger] deck@[j]).0 == j,
        decreases CARDS_PER_DECK - i,
    {
        deck.push(Card(i));
        i = i + 1;
    }
    deck
}

/// One step of the linear-congruential generator used for
/// reproducible pseudo-random decks.
pub open spec fn lcg_next(state: u32) -> u32 {
    vstd::wrapping::u32_specs::wrapping_add(
        vstd::wrapping::u32_specs::wrapping_mul(state, 1664525),
        1013904223,
    )
}

/// Advance the generator and return its new state.
fn lcg(state: &mut u32) -> (r: u32)
    ensures
        *final(state) == lcg_next(*old(state)),
        r == *final(state),
{
    *state = state.wrapping_mul(1664525).wrapping_add(1013904223);
    *state
}

/// Swapping two positions of a sequence leaves its multiset of
/// elements unchanged.
pub proof fn lemma_swap_multiset<A>(s: Seq<A>, i: int, j: int)
    requires
        0 <= i < j < s.len(),
    ensures
        s.update(i, s[j]).update(j, s[i]).to_multiset() == s.to_multiset(),
{
    let t = s.update(i, s[j]).update(j, s[i]);
    let a = s.take(i);
    let b = s.subrange(i + 1, j);
    let c = s.skip(j + 1);
    assert(s =~= a + seq![s[i]] + b + seq![s[j]] + c);
    assert(t =~= a + seq![s[j]] + b + seq![s[i]] + c);
    vstd::seq_lib::lemma_multiset_commutative(a + seq![s[i]] + b + seq![s[j]], c);
    vstd::seq_lib::lemma_multiset_commutative(a + seq![s[i]] + b, seq![s[j]]);
    vstd::seq_lib::lemma_multiset_commutative(a + seq![s[i]], b);
    vstd::seq_lib::lemma_multiset_commutative(a, seq![s[i]]);
    vstd::seq_lib::lemma_multiset_commutative(a + seq![s[j]] + b + seq![s[i]], c);
    vstd::seq_lib::lemma_multiset_commutative(a + seq![s[j]] + b, seq![s[i]]);
    vstd::seq_lib::lemma_multiset_commutative(a + seq![s[j]], b);
    vstd::seq_lib::lemma_multiset_commutative(a, seq![s[j]]);
    assert(t.to_multiset() =~= s.to_multiset());
}

/// Return a deterministically shuffled standard deck for a 32-bit
/// seed, using a simple linear-congruential generator driving a
/// bottom-up swap shuffle. The result is always a permutation of the
/// standard deck.
pub fn shuffled_deck_from_seed(seed: u32) -> (deck: Vec<Card>)
    ensures
        deck@.len() == CARDS_PER_DECK,
        deck@.to_multiset() == Seq::new(CARDS_PER_DECK as nat, |i: int| Card(i as u8))
            .to_multiset(),
        forall|i: int| 0 <= i < deck@.len() ==> card_valid(#[trigger] deck@[i]),
{
    let mut deck = standard_deck();
    let ghost std_deck = deck@;
    proof {
        assert(std_deck =~= Seq::new(CARDS_PER_DECK as nat, |i: int| Card(i as u8)));
    }
    let mut state: u32 = seed;

    let mut i: usize = 51;
    while i >= 1
        invariant
            i <= 51,
            deck@.len() == 52,
            deck@.to_multiset() == std_deck.to_multiset(),
        decreases i,
    {
        let ghost before = deck@;
        let r = (lcg(&mut state) as usize) % (i + 1);
        let ci = deck[i];
        let cr = deck[r];
        deck[i] = cr;
        deck[r] = ci;
        proof {
            if r < i {
                assert(deck@ =~= before.update(r as int, before[i as int]).update(
                    i as int,
                    before[r as int],
                ));
                lemma_swap_multiset(before, r as int, i as int);
            } else {
                assert(deck@ =~= before);
            }
        }
        i = i - 1;
    }
    proof {
        broadcast use vstd::seq_lib::group_to_multiset_ensures;

        assert forall|k: int| 0 <= k < deck@.len() implies card_valid(#[trigger] deck@[k]) by {
            assert(deck@.to_multiset().contains(deck@[k]));
            assert(std_deck.to_multiset().contains(deck@[k]));
            assert(std_deck.contains(deck@[k]));
        }
    }
    deck
}

} // verus!
