//! Canonical fixed 52-card deals.
//!
//! The centrepiece carries the local unplayability conditions of
//! de Ruiter and Kortsmit: none of the cards accessible in their
//! column-major dealing model (the seven triangular column-top
//! positions and the eight waste-top positions under draw-3) is an
//! Ace, and no placement among those cards is legal. Note well: this
//! crate's `Tableau::deal_from_shuffled` deals the columns
//! right-to-left, so its column tops come from deal positions 21..28,
//! not from the triangular positions this module's conditions speak
//! of. The proved contracts here are exactly the column-major
//! conditions; a deal that is unplayable at the positions this
//! crate's deal actually exposes must carry the forced cards at
//! positions 21..28 instead, as the crate's tests construct for the
//! end-to-end loss scenario.

use crate::card::{card_rank, card_red, card_valid, suit_code_spec, Card, Rank, Suit};
use vstd::prelude::*;

verus! {

/// Deck position of the face-up top card of column `a` under the
/// column-major triangular dealing model (column `a` holds `a + 1`
/// cards, its top at position `T(a + 1) - 1`). This crate's own deal
/// fills columns right-to-left instead, placing its tops at
/// positions 21..28; these triangular positions belong to the
/// de Ruiter/Kortsmit accessibility model only.
pub open spec fn tab_pos(a: int) -> int {
    if a == 0 {
        0
    } else if a == 1 {
        2
    } else if a == 2 {
        5
    } else if a == 3 {
        9
    } else if a == 4 {
        14
    } else if a == 5 {
        20
    } else {
        27
    }
}

/// Deck position of the `a`-th card that can ever top the waste under
/// draw-3 with unlimited redeals: stock positions 2, 5, 8, ... of the
/// 24 stock cards starting at deck position 28.
pub open spec fn stock_pos(a: int) -> int {
    28 + 3 * a + 2
}

/// The de Ruiter/Kortsmit local unplayability conditions on a deal,
/// at the column-major accessible positions: none of those cards is
/// an Ace, no two of the tableau-position cards of opposite color
/// differ by one rank, and no stock-position card sits one rank below
/// a tableau-position card of opposite color. The conditions are a
/// formula over the fixed positions `tab_pos` and `stock_pos`; they
/// say nothing about the positions this crate's own deal exposes.
pub open spec fn unplayable_local(d: Seq<Card>) -> bool {
    &&& forall|a: int| 0 <= a < 7 ==> card_rank(#[trigger] d[tab_pos(a)]) != 0
    &&& forall|a: int| 0 <= a < 8 ==> card_rank(#[trigger] d[stock_pos(a)]) != 0
    &&& forall|a: int, b: int|
        0 <= a < 7 && 0 <= b < 7 && card_red(#[trigger] d[tab_pos(a)]) != card_red(
            #[trigger] d[tab_pos(b)],
        ) ==> card_rank(d[tab_pos(a)]) + 1 != card_rank(d[tab_pos(b)])
    &&& forall|a: int, b: int|
        0 <= a < 8 && 0 <= b < 7 && card_red(#[trigger] d[stock_pos(a)]) != card_red(
            #[trigger] d[tab_pos(b)],
        ) ==> card_rank(d[stock_pos(a)]) + 1 != card_rank(d[tab_pos(b)])
}

/// Exec mirror of `tab_pos`.
fn tab_pos_at(a: usize) -> (r: usize)
    requires
        a < 7,
    ensures
        r == tab_pos(a as int),
{
    if a == 0 {
        0
    } else if a == 1 {
        2
    } else if a == 2 {
        5
    } else if a == 3 {
        9
    } else if a == 4 {
        14
    } else if a == 5 {
        20
    } else {
        27
    }
}

/// Exec mirror of `stock_pos`.
fn stock_pos_at(a: usize) -> (r: usize)
    requires
        a < 8,
    ensures
        r == stock_pos(a as int),
{
    28 + 3 * a + 2
}

/// The seven column-top deck positions of the column-major dealing
/// model (not of this crate's right-to-left deal, whose tops sit at
/// positions 21..28).
pub fn accessible_tableau_indices() -> (r: Vec<usize>)
    ensures
        r@.len() == 7,
        forall|a: int| 0 <= a < 7 ==> #[trigger] r@[a] == tab_pos(a),
{
    let mut r: Vec<usize> = Vec::new();
    let mut a: usize = 0;
    while a < 7
        invariant
            a <= 7,
            r@.len() == a,
            forall|k: int| 0 <= k < a ==> #[trigger] r@[k] == tab_pos(k),
        decreases 7 - a,
    {
        r.push(tab_pos_at(a));
        a = a + 1;
    }
    r
}

/// The eight deck positions that can ever top the waste under draw-3.
pub fn accessible_stock_indices() -> (r: Vec<usize>)
    ensures
        r@.len() == 8,
        forall|a: int| 0 <= a < 8 ==> #[trigger] r@[a] == stock_pos(a),
{
    let mut r: Vec<usize> = Vec::new();
    let mut a: usize = 0;
    while a < 8
        invariant
            a <= 8,
            r@.len() == a,
            forall|k: int| 0 <= k < a ==> #[trigger] r@[k] == stock_pos(k),
        decreases 8 - a,
    {
        r.push(stock_pos_at(a));
        a = a + 1;
    }
    r
}

/// 0-based rank index of a rank value.
fn rank_val(r: Rank) -> (v: u8)
    ensures
        v == crate::card::rank_code_spec(r),
{
    if r.number() >= 1 {
        r.number() - 1
    } else {
        0
    }
}

/// True if the suit is red (hearts or diamonds).
fn is_red(s: Suit) -> (r: bool)
    ensures
        r == (suit_code_spec(s) == 0 || suit_code_spec(s) == 3),
{
    match s {
        Suit::Hearts | Suit::Diamonds => true,
        Suit::Clubs | Suit::Spades => false,
    }
}

/// True if the two cards have opposite colors.
fn opposite_colour(a: Card, b: Card) -> (r: bool)
    requires
        card_valid(a),
        card_valid(b),
    ensures
        r == (card_red(a) != card_red(b)),
{
    is_red(a.suit()) != is_red(b.suit())
}

/// Purely local check of the unplayable conditions for a given deal.
pub fn is_unplayable_by_local_conditions(deck: &Vec<Card>) -> (r: bool)
    requires
        deck@.len() == 52,
        forall|i: int| 0 <= i < deck@.len() ==> card_valid(#[trigger] deck@[i]),
    ensures
        r == unplayable_local(deck@),
{
    let ghost d = deck@;

    // 1 & 2: no Aces among accessible cards.
    let mut a: usize = 0;
    while a < 7
        invariant
            a <= 7,
            d == deck@,
            deck@.len() == 52,
            forall|i: int| 0 <= i < deck@.len() ==> card_valid(#[trigger] deck@[i]),
            forall|k: int| 0 <= k < a ==> card_rank(#[trigger] d[tab_pos(k)]) != 0,
        decreases 7 - a,
    {
        let c = deck[tab_pos_at(a)];
        if c.rank_number() == 1 {
            proof {
                assert(card_rank(d[tab_pos(a as int)]) == 0);
            }
            return false;
        }
        a = a + 1;
    }
    let mut a: usize = 0;
    while a < 8
        invariant
            a <= 8,
            d == deck@,
            deck@.len() == 52,
            forall|i: int| 0 <= i < deck@.len() ==> card_valid(#[trigger] deck@[i]),
            forall|k: int| 0 <= k < a ==> card_rank(#[trigger] d[stock_pos(k)]) != 0,
        decreases 8 - a,
    {
        let c = deck[stock_pos_at(a)];
        if c.rank_number() == 1 {
            proof {
                assert(card_rank(d[stock_pos(a as int)]) == 0);
            }
            return false;
        }
        a = a + 1;
    }

    // 3: no two accessible tableau cards of opposite color differing
    // by exactly one rank.
    let mut a: usize = 0;
    while a < 7
        invariant
            a <= 7,
            d == deck@,
            deck@.len() == 52,
            forall|i: int| 0 <= i < deck@.len() ==> card_valid(#[trigger] deck@[i]),
            forall|k: int, b: int|
                0 <= k < a && 0 <= b < 7 && card_red(#[trigger] d[tab_pos(k)]) != card_red(
                    #[trigger] d[tab_pos(b)],
                ) ==> card_rank(d[tab_pos(k)]) + 1 != card_rank(d[tab_pos(b)]),
        decreases 7 - a,
    {
        let ca = deck[tab_pos_at(a)];
        let mut b: usize = 0;
        while b < 7
            invariant
                b <= 7,
                a < 7,
                d == deck@,
                deck@.len() == 52,
                forall|i: int| 0 <= i < deck@.len() ==> card_valid(#[trigger] deck@[i]),
                ca == d[tab_pos(a as int)],
                forall|k: int, bb: int|
                    0 <= k < a && 0 <= bb < 7 && card_red(#[trigger] d[tab_pos(k)]) != card_red(
                        #[trigger] d[tab_pos(bb)],
                    ) ==> card_rank(d[tab_pos(k)]) + 1 != card_rank(d[tab_pos(bb)]),
                forall|bb: int|
                    0 <= bb < b && card_red(d[tab_pos(a as int)]) != card_red(
                        #[trigger] d[tab_pos(bb)],
                    ) ==> card_rank(d[tab_pos(a as int)]) + 1 != card_rank(d[tab_pos(bb)]),
            decreases 7 - b,
        {
            let cb = deck[tab_pos_at(b)];
            if opposite_colour(ca, cb) && ca.rank_number() + 1 == cb.rank_number() {
                return false;
            }
            b = b + 1;
        }
        a = a + 1;
    }

    // 4: no accessible stock card placeable on an accessible tableau
    // card (one rank lower, opposite color).
    let mut a: usize = 0;
    while a < 8
        invariant
            a <= 8,
            d == deck@,
            deck@.len() == 52,
            forall|i: int| 0 <= i < deck@.len() ==> card_valid(#[trigger] deck@[i]),
            forall|k: int, b: int|
                0 <= k < a && 0 <= b < 7 && card_red(#[trigger] d[stock_pos(k)]) != card_red(
                    #[trigger] d[tab_pos(b)],
                ) ==> card_rank(d[stock_pos(k)]) + 1 != card_rank(d[tab_pos(b)]),
        decreases 8 - a,
    {
        let ca = deck[stock_pos_at(a)];
        let mut b: usize = 0;
        while b < 7
            invariant
                b <= 7,
                a < 8,
                d == deck@,
                deck@.len() == 52,
                forall|i: int| 0 <= i < deck@.len() ==> card_valid(#[trigger] deck@[i]),
                ca == d[stock_pos(a as int)],
                forall|k: int, bb: int|
                    0 <= k < a && 0 <= bb < 7 && card_red(#[trigger] d[stock_pos(k)]) != card_red(
                        #[trigger] d[tab_pos(bb)],
                    ) ==> card_rank(d[stock_pos(k)]) + 1 != card_rank(d[tab_pos(bb)]),
                forall|bb: int|
                    0 <= bb < b && card_red(d[stock_pos(a as int)]) != card_red(
                        #[trigger] d[tab_pos(bb)],
                    ) ==> card_rank(d[stock_pos(a as int)]) + 1 != card_rank(d[tab_pos(bb)]),
            decreases 7 - b,
        {
            let cb = deck[tab_pos_at(b)];
            if opposite_colour(ca, cb) && ca.rank_number() + 1 == cb.rank_number() {
                return false;
            }
            b = b + 1;
        }
        a = a + 1;
    }

    true
}

/// The canonical deal satisfying the column-major local conditions.
///
/// The fifteen accessible positions of that model carry hand-picked
/// cards: the triangular column-top positions get the black 5, 7, 9,
/// J of clubs and 5, 7, 9 of spades; the stock positions get 3 of
/// clubs and spades and the red 7, J, K pairs. Those ranks are odd
/// and at least two apart, so the conditions hold by inspection. The
/// other 37 positions take the remaining cards in a fixed suit-major
/// order. Under this crate's own right-to-left deal the exposed
/// positions differ, and this deal does have legal opening moves.
pub open spec fn unplayable_deck_bytes() -> Seq<u8> {
    seq![
        17u8, 13, 19, 14, 16, 21, 18, 20, 22, 23, 24, 25, 39, 40, 30, 41, 42, 43, 44, 46, 32,
        47, 48, 50, 0, 1, 2, 34, 3, 4, 15, 5, 7, 28, 8, 9, 45, 11, 26, 6, 27, 29, 49, 31, 33,
        10, 35, 36, 51, 37, 38, 12,
    ]
}

/// The card dealt to position `i` of the canonical unplayable deal.
pub open spec fn unplayable_deck_card(i: int) -> u8 {
    unplayable_deck_bytes()[i]
}

/// Canonical deal satisfying the de Ruiter/Kortsmit local conditions:
/// a 52-card permutation, duplicate-free, proved to meet
/// `unplayable_local` — the unplayability formula at the
/// column-major accessible positions. It is not unplayable under this
/// crate's own deal, whose column tops come from positions 21..28.
pub fn canonical_unplayable_deck() -> (r: Vec<Card>)
    ensures
        r@.len() == 52,
        forall|i: int| 0 <= i < 52 ==> (#[trigger] r@[i]).0 == unplayable_deck_card(i),
        forall|i: int| 0 <= i < r@.len() ==> card_valid(#[trigger] r@[i]),
        r@.no_duplicates(),
        unplayable_local(r@),
{
    let table: [u8; 52] = [
        17, 13, 19, 14, 16, 21, 18, 20, 22, 23, 24, 25, 39, 40, 30, 41, 42, 43, 44, 46, 32, 47,
        48, 50, 0, 1, 2, 34, 3, 4, 15, 5, 7, 28, 8, 9, 45, 11, 26, 6, 27, 29, 49, 31, 33, 10, 35,
        36, 51, 37, 38, 12,
    ];
    proof {
        assert(table@ =~= unplayable_deck_bytes());
    }
    let mut r: Vec<Card> = Vec::new();
    let mut i: usize = 0;
    while i < 52
        invariant
            i <= 52,
            r@.len() == i,
            forall|k: int| 0 <= k < i ==> (#[trigger] r@[k]).0 == unplayable_deck_card(k),
            table@ == unplayable_deck_bytes(),
        decreases 52 - i,
    {
        r.push(Card(table[i]));
        i = i + 1;
    }
    proof {
        assert forall|a: int, b: int| 0 <= a < 52 && 0 <= b < 52 && a != b implies r@[a] != r@[b] by {
            assert(r@[a].0 == unplayable_deck_card(a));
            assert(r@[b].0 == unplayable_deck_card(b));
        }
        assert(r@.no_duplicates());
    }
    r
}

/// The card at position `i` of the standard deck in suit-major,
/// rank-minor order: clubs, diamonds, hearts, spades; Ace up to King.
pub open spec fn suit_rank_deck_card(i: int) -> u8 {
    (if i / 13 == 0 {
        1int
    } else if i / 13 == 1 {
        3int
    } else if i / 13 == 2 {
        0int
    } else {
        2int
    } * 13 + i % 13) as u8
}

/// Standard 52-card deck in suit-major, rank-minor order: clubs,
/// diamonds, hearts, spades; Ace..King.
fn standard_deck_suit_rank() -> (r: Vec<Card>)
    ensures
        r@.len() == 52,
        forall|i: int| 0 <= i < 52 ==> (#[trigger] r@[i]).0 == suit_rank_deck_card(i),
        forall|i: int| 0 <= i < r@.len() ==> card_valid(#[trigger] r@[i]),
{
    let mut r: Vec<Card> = Vec::new();
    let mut i: usize = 0;
    while i < 52
        invariant
            i <= 52,
            r@.len() == i,
            forall|k: int| 0 <= k < i ==> (#[trigger] r@[k]).0 == suit_rank_deck_card(k),
            forall|k: int| 0 <= k < i ==> card_valid(#[trigger] r@[k]),
        decreases 52 - i,
    {
        let s: u8 = if i / 13 == 0 {
            1
        } else if i / 13 == 1 {
            3
        } else if i / 13 == 2 {
            0
        } else {
            2
        };
        r.push(Card(s * 13 + (i % 13) as u8));
        i = i + 1;
    }
    r
}

/// Project-local "easy win" deck: the standard ordered deck, kept as
/// a placeholder for a deal known to be winnable.
pub fn canonical_easy_win_deck() -> (r: Vec<Card>)
    ensures
        r@.len() == 52,
        forall|i: int| 0 <= i < 52 ==> (#[trigger] r@[i]).0 == suit_rank_deck_card(i),
        forall|i: int| 0 <= i < r@.len() ==> card_valid(#[trigger] r@[i]),
{
    standard_deck_suit_rank()
}

/// Project-local "unsolvable but with moves" deck: the standard
/// ordered deck, kept as a placeholder for a deal known to have legal
/// moves but no winning line.
pub fn canonical_unsolvable_but_playable_deck() -> (r: Vec<Card>)
    ensures
        r@.len() == 52,
        forall|i: int| 0 <= i < 52 ==> (#[trigger] r@[i]).0 == suit_rank_deck_card(i),
        forall|i: int| 0 <= i < r@.len() ==> card_valid(#[trigger] r@[i]),
{
    standard_deck_suit_rank()
}

} // verus!
