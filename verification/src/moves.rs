//! Move representation, legality, and application for Klondike
//! (draw-3, unlimited redeals).
//!
//! Legality of each move kind is defined once, as the spec predicate
//! [`spec_move_legal`], and the effect of a move is the spec function
//! [`spec_apply`]. The executable generator and applier are proved
//! against exactly these definitions: `generate_legal_moves` returns
//! all legal moves and nothing else, and `Move::apply` performs
//! precisely the transition `spec_apply` describes, including the
//! automatic exposure of a newly uncovered card.

use crate::card::{
    card_rank, card_red, card_str, card_suit, card_valid, one_lower_opposite_color, Card,
    NUM_RANKS,
};
use crate::text::{dec_digits, push_u8_decimal};
use vstd::string::StringExecFns;
use crate::tableau::{
    col_shape, tab_cards_valid, tab_total, tab_wf, ColModel, Column, TabModel, Tableau, MAX_COL,
    MAX_STOCK, NUM_COLS, NUM_FOUNDATIONS,
};
use vstd::prelude::*;

verus! {

/// Representation of the different move types in Klondike.
///
/// Column and waste moves reference piles by small indices; a move is
/// meaningful only relative to the position it was generated from.
#[derive(Clone, Copy, Debug, PartialEq, Eq, Structural)]
pub enum MoveKind {
    /// Move the face-up run starting at `src_index` (an index into the
    /// column's storage, bottom = 0) from `src_col` to `dst_col`.
    ColumnToColumn { src_col: u8, src_index: u8, dst_col: u8 },
    /// Move the top face-up card of a tableau column to its foundation.
    ColumnToFoundation { src_col: u8 },
    /// Move the top card of the waste pile to a tableau column.
    WasteToColumn { dst_col: u8 },
    /// Move the top card of the waste pile to its foundation.
    WasteToFoundation,
    /// Flip the top card of a column whose cards are all face-down.
    FlipColumn { col: u8 },
    /// Deal up to three cards from the stock onto the waste.
    DealFromStock,
    /// Move the entire waste back into the stock, restoring the stock
    /// order that repeated deals started from.
    RedealStock,
}

/// A single move, wrapping a `MoveKind`.
#[derive(Clone, Copy, Debug, PartialEq, Eq, Structural)]
pub struct Move {
    pub kind: MoveKind,
}

/// A card may go to its foundation exactly when the foundation counter
/// for its suit equals the card's rank index (an empty foundation, 0,
/// accepts only the Ace, rank 0).
pub open spec fn spec_can_to_foundation(t: TabModel, c: Card) -> bool {
    t.found[card_suit(c) as int] == card_rank(c) as int
}

/// `above` may be placed onto `below` in a column: opposite colors and
/// `below` exactly one rank higher.
pub open spec fn spec_can_place(below: Card, above: Card) -> bool {
    one_lower_opposite_color(above, below)
}

/// A non-empty card sequence (bottom to top of a column) is a valid
/// run: ranks descend by exactly one and colors alternate.
pub open spec fn spec_valid_run(cards: Seq<Card>) -> bool {
    &&& cards.len() > 0
    &&& forall|i: int|
        0 <= i < cards.len() - 1 ==> one_lower_opposite_color(
            #[trigger] cards[i + 1],
            cards[i],
        )
}

/// Legality of one move in one position, the single definition the
/// generator and applier are both held to.
pub open spec fn spec_move_legal(t: TabModel, m: MoveKind) -> bool {
    match m {
        MoveKind::ColumnToColumn { src_col, src_index, dst_col } => {
            let s = t.cols[src_col as int];
            let dd = t.cols[dst_col as int];
            &&& src_col < NUM_COLS
            &&& dst_col < NUM_COLS
            &&& src_col != dst_col
            &&& s.face_down <= src_index < s.cards.len()
            &&& spec_valid_run(s.cards.skip(src_index as int))
            &&& if dd.cards.len() == 0 {
                card_rank(s.cards[src_index as int]) == 12
            } else {
                &&& dd.face_down < dd.cards.len()
                &&& spec_can_place(dd.cards.last(), s.cards[src_index as int])
            }
        },
        MoveKind::ColumnToFoundation { src_col } => {
            let s = t.cols[src_col as int];
            &&& src_col < NUM_COLS
            &&& s.face_down < s.cards.len()
            &&& spec_can_to_foundation(t, s.cards.last())
        },
        MoveKind::WasteToColumn { dst_col } => {
            let dd = t.cols[dst_col as int];
            &&& dst_col < NUM_COLS
            &&& t.waste.len() > 0
            &&& if dd.cards.len() == 0 {
                card_rank(t.waste.last()) == 12
            } else {
                &&& dd.face_down < dd.cards.len()
                &&& spec_can_place(dd.cards.last(), t.waste.last())
            }
        },
        MoveKind::WasteToFoundation => {
            &&& t.waste.len() > 0
            &&& spec_can_to_foundation(t, t.waste.last())
        },
        MoveKind::FlipColumn { col } => {
            let s = t.cols[col as int];
            &&& col < NUM_COLS
            &&& s.cards.len() > 0
            &&& s.face_down == s.cards.len()
        },
        MoveKind::DealFromStock => t.stock.len() > 0,
        MoveKind::RedealStock => t.stock.len() == 0 && t.waste.len() > 0,
    }
}

/// The automatic exposure rule: if a column still has cards but all of
/// them are face-down after a removal, the new top card turns face-up.
pub open spec fn expose_after_removal(c: ColModel) -> ColModel {
    if c.cards.len() > 0 && c.face_down == c.cards.len() {
        ColModel { cards: c.cards, face_down: c.face_down - 1 }
    } else {
        c
    }
}

/// The effect of one (legal) move on a position.
pub open spec fn spec_apply(t: TabModel, m: MoveKind) -> TabModel {
    match m {
        MoveKind::ColumnToColumn { src_col, src_index, dst_col } => {
            let s = t.cols[src_col as int];
            let dd = t.cols[dst_col as int];
            let run = s.cards.skip(src_index as int);
            let s2 = expose_after_removal(
                ColModel { cards: s.cards.take(src_index as int), face_down: s.face_down },
            );
            let d2 = ColModel { cards: dd.cards + run, face_down: dd.face_down };
            TabModel {
                cols: t.cols.update(src_col as int, s2).update(dst_col as int, d2),
                ..t
            }
        },
        MoveKind::ColumnToFoundation { src_col } => {
            let s = t.cols[src_col as int];
            let card = s.cards.last();
            let s2 = expose_after_removal(
                ColModel { cards: s.cards.drop_last(), face_down: s.face_down },
            );
            TabModel {
                cols: t.cols.update(src_col as int, s2),
                found: t.found.update(card_suit(card) as int, card_rank(card) + 1),
                ..t
            }
        },
        MoveKind::WasteToColumn { dst_col } => {
            let card = t.waste.last();
            let dd = t.cols[dst_col as int];
            TabModel {
                waste: t.waste.drop_last(),
                cols: t.cols.update(
                    dst_col as int,
                    ColModel { cards: dd.cards.push(card), face_down: dd.face_down },
                ),
                ..t
            }
        },
        MoveKind::WasteToFoundation => {
            let card = t.waste.last();
            TabModel {
                waste: t.waste.drop_last(),
                found: t.found.update(card_suit(card) as int, card_rank(card) + 1),
                ..t
            }
        },
        MoveKind::FlipColumn { col } => {
            let s = t.cols[col as int];
            TabModel {
                cols: t.cols.update(
                    col as int,
                    ColModel { cards: s.cards, face_down: s.face_down - 1 },
                ),
                ..t
            }
        },
        MoveKind::DealFromStock => {
            let k: int = if t.stock.len() >= 3 {
                3
            } else {
                t.stock.len() as int
            };
            TabModel {
                stock: t.stock.take(t.stock.len() - k),
                waste: t.waste + t.stock.skip(t.stock.len() - k).reverse(),
                ..t
            }
        },
        MoveKind::RedealStock => {
            TabModel { stock: t.waste.reverse(), waste: Seq::empty(), ..t }
        },
    }
}

/// Invariant of a single column in any position reachable from a
/// standard deal: the face-down prefix never exceeds the six cards the
/// deal buries, a non-empty column always shows at least one face-up
/// card (the automatic exposure rule restores this after every move),
/// and the face-up suffix is a valid run.
pub open spec fn col_good(c: ColModel) -> bool {
    &&& col_shape(c)
    &&& c.face_down <= 6
    &&& c.cards.len() > 0 ==> c.face_down < c.cards.len() && spec_valid_run(
        c.cards.skip(c.face_down),
    )
}

/// Invariant of every position reachable from a standard deal:
/// well-formed, stock and waste together never hold more than the 24
/// undealt cards, and every column satisfies [`col_good`].
pub open spec fn tab_good(t: TabModel) -> bool {
    &&& tab_wf(t)
    &&& t.stock.len() + t.waste.len() <= MAX_STOCK
    &&& forall|i: int| 0 <= i < t.cols.len() ==> col_good(#[trigger] t.cols[i])
}

/// In a valid run, ranks descend by exactly one from the bottom card.
proof fn lemma_run_index(cards: Seq<Card>, i: int)
    requires
        spec_valid_run(cards),
        0 <= i < cards.len(),
    ensures
        card_rank(cards[i]) + i == card_rank(cards[0]),
    decreases i,
{
    if i > 0 {
        lemma_run_index(cards, i - 1);
        let j = i - 1;
        assert(one_lower_opposite_color(cards[j + 1], cards[j]));
    }
}

/// A valid run holds at most 13 cards (its ranks strictly descend).
proof fn lemma_run_len(cards: Seq<Card>)
    requires
        spec_valid_run(cards),
    ensures
        cards.len() <= 13,
{
    lemma_run_index(cards, cards.len() - 1);
}

/// A non-empty prefix of a valid run is a valid run.
proof fn lemma_run_take(cards: Seq<Card>, n: int)
    requires
        spec_valid_run(cards),
        1 <= n <= cards.len(),
    ensures
        spec_valid_run(cards.take(n)),
{
    assert forall|i: int| 0 <= i < n - 1 implies one_lower_opposite_color(
        #[trigger] cards.take(n)[i + 1],
        cards.take(n)[i],
    ) by {
        assert(one_lower_opposite_color(cards[i + 1], cards[i]));
    }
}

/// Two valid runs whose junction satisfies the placement rule form one
/// valid run.
proof fn lemma_run_concat(a: Seq<Card>, b: Seq<Card>)
    requires
        spec_valid_run(a),
        spec_valid_run(b),
        spec_can_place(a.last(), b[0]),
    ensures
        spec_valid_run(a + b),
{
    let ab = a + b;
    assert forall|i: int| 0 <= i < ab.len() - 1 implies one_lower_opposite_color(
        #[trigger] ab[i + 1],
        ab[i],
    ) by {
        if i + 1 < a.len() {
            assert(ab[i] == a[i] && ab[i + 1] == a[i + 1]);
            assert(one_lower_opposite_color(a[i + 1], a[i]));
        } else if i + 1 == a.len() {
            assert(ab[i] == a.last() && ab[i + 1] == b[0]);
        } else {
            assert(ab[i] == b[i - a.len()] && ab[i + 1] == b[i + 1 - a.len()]);
            assert(one_lower_opposite_color(b[i - a.len() + 1], b[i - a.len()]));
        }
    }
}

/// Law: the position invariant is preserved, and the total card count
/// is conserved, by every legal move. In particular a move returned by
/// the enumerator never changes `total_cards` of a reachable position.
pub proof fn lemma_apply_preserves_good(t: TabModel, m: MoveKind)
    requires
        tab_good(t),
        spec_move_legal(t, m),
    ensures
        tab_good(spec_apply(t, m)),
        tab_total(spec_apply(t, m)) == tab_total(t),
{
    let t2 = spec_apply(t, m);
    match m {
        MoveKind::ColumnToColumn { src_col, src_index, dst_col } => {
            let si = src_col as int;
            let di = dst_col as int;
            let s = t.cols[si];
            let dd = t.cols[di];
            let i = src_index as int;
            let run = s.cards.skip(i);
            let s2 = expose_after_removal(
                ColModel { cards: s.cards.take(i), face_down: s.face_down },
            );
            let d2 = ColModel { cards: dd.cards + run, face_down: dd.face_down };

            // The moved run is valid and short.
            lemma_run_len(run);

            // The shrunk source column stays good.
            assert(col_good(s2)) by {
                if i > s.face_down {
                    assert(s.cards.take(i).skip(s.face_down) =~= s.cards.skip(s.face_down).take(
                        i - s.face_down,
                    ));
                    lemma_run_take(s.cards.skip(s.face_down), i - s.face_down);
                } else {
                    if i > 0 {
                        assert(s2.cards.skip(i - 1) =~= seq![s.cards.take(i)[i - 1]]);
                    }
                }
            }

            // The grown destination column stays good.
            assert(col_good(d2)) by {
                if dd.cards.len() == 0 {
                    assert(dd.cards + run =~= run);
                    assert(d2.face_down == 0);
                } else {
                    let up = dd.cards.skip(dd.face_down);
                    assert(spec_can_place(up.last(), run[0]));
                    lemma_run_concat(up, run);
                    assert(d2.cards.skip(d2.face_down) =~= up + run);
                    lemma_run_len(up + run);
                }
            }
            assert(d2.cards.len() <= MAX_COL) by {
                if dd.cards.len() == 0 {
                    assert(d2.cards.len() == run.len());
                } else {
                    lemma_run_concat(dd.cards.skip(dd.face_down), run);
                    lemma_run_len(dd.cards.skip(dd.face_down) + run);
                    assert(d2.cards.len() == dd.face_down + (dd.cards.skip(dd.face_down)
                        + run).len());
                }
            }

            vstd::seq_lib::lemma_multiset_commutative(dd.cards, run);
            crate::tableau::lemma_cols_total_update(t.cols, si, s2);
            crate::tableau::lemma_cols_total_update(t.cols.update(si, s2), di, d2);
            assert(t.cols.update(si, s2)[di] == dd);
            assert(tab_cards_valid(t2)) by {
                assert forall|c: int, k: int|
                    0 <= c < t2.cols.len() && 0 <= k < t2.cols[c].cards.len() implies card_valid(
                    #[trigger] t2.cols[c].cards[k],
                ) by {
                    if c == di {
                        if k < dd.cards.len() {
                            assert(t2.cols[c].cards[k] == dd.cards[k]);
                        } else {
                            assert(t2.cols[c].cards[k] == s.cards[k - dd.cards.len() + i]);
                        }
                    } else if c == si {
                        assert(t2.cols[c].cards[k] == s.cards[k]);
                    }
                }
            }
        },
        MoveKind::ColumnToFoundation { src_col } => {
            let si = src_col as int;
            let s = t.cols[si];
            let card = s.cards.last();
            let shrunk = ColModel { cards: s.cards.drop_last(), face_down: s.face_down };
            let s2 = expose_after_removal(shrunk);
            assert(col_good(s2)) by {
                let n = s.cards.len() as int;
                if n - 1 > s.face_down {
                    assert(s.cards.drop_last().skip(s.face_down) =~= s.cards.skip(
                        s.face_down,
                    ).take(n - 1 - s.face_down));
                    lemma_run_take(s.cards.skip(s.face_down), n - 1 - s.face_down);
                } else {
                    if s.face_down > 0 {
                        assert(s2.cards.skip(s.face_down - 1) =~= seq![
                            s.cards.drop_last()[s.face_down - 1],
                        ]);
                    }
                }
            }
            crate::tableau::lemma_cols_total_update(t.cols, si, s2);
            crate::tableau::lemma_found_total_update(
                t.found,
                card_suit(card) as int,
                card_rank(card) + 1,
            );
            assert(tab_cards_valid(t2)) by {
                assert forall|c: int, k: int|
                    0 <= c < t2.cols.len() && 0 <= k < t2.cols[c].cards.len() implies card_valid(
                    #[trigger] t2.cols[c].cards[k],
                ) by {
                    if c == si {
                        assert(t2.cols[c].cards[k] == s.cards[k]);
                    }
                }
            }
        },
        MoveKind::WasteToColumn { dst_col } => {
            let di = dst_col as int;
            let card = t.waste.last();
            let dd = t.cols[di];
            let d2 = ColModel { cards: dd.cards.push(card), face_down: dd.face_down };
            assert(col_good(d2) && d2.cards.len() <= MAX_COL) by {
                if dd.cards.len() == 0 {
                    assert(d2.cards.skip(0) =~= seq![card]);
                } else {
                    let up = dd.cards.skip(dd.face_down);
                    assert(spec_can_place(up.last(), card));
                    lemma_run_concat(up, seq![card]);
                    assert(d2.cards.skip(d2.face_down) =~= up + seq![card]);
                    lemma_run_len(up + seq![card]);
                }
            }
            crate::tableau::lemma_cols_total_update(t.cols, di, d2);
            assert(tab_cards_valid(t2)) by {
                assert(card_valid(t.waste[t.waste.len() - 1]));
                assert forall|c: int, k: int|
                    0 <= c < t2.cols.len() && 0 <= k < t2.cols[c].cards.len() implies card_valid(
                    #[trigger] t2.cols[c].cards[k],
                ) by {
                    if c == di {
                        if k < dd.cards.len() {
                            assert(t2.cols[c].cards[k] == dd.cards[k]);
                        } else {
                            assert(t2.cols[c].cards[k] == card);
                        }
                    }
                }
            }
        },
        MoveKind::WasteToFoundation => {
            let card = t.waste.last();
            assert(card_valid(t.waste[t.waste.len() - 1]));
            crate::tableau::lemma_found_total_update(
                t.found,
                card_suit(card) as int,
                card_rank(card) + 1,
            );
        },
        MoveKind::FlipColumn { col } => {
            // Unreachable from a standard deal: a good position never
            // has a non-empty column with every card face-down.
            assert(false);
        },
        MoveKind::DealFromStock => {
            let k: int = if t.stock.len() >= 3 {
                3
            } else {
                t.stock.len() as int
            };
            let n = t.stock.len() as int;
            assert(t2.stock.len() == n - k);
            assert(t2.waste.len() == t.waste.len() + k);
            assert(tab_cards_valid(t2)) by {
                assert forall|j: int| 0 <= j < t2.waste.len() implies card_valid(
                    #[trigger] t2.waste[j],
                ) by {
                    if j < t.waste.len() {
                        assert(t2.waste[j] == t.waste[j]);
                    } else {
                        assert(t2.waste[j] == t.stock.skip(n - k).reverse()[j - t.waste.len()]);
                        assert(t2.waste[j] == t.stock[n - 1 - (j - t.waste.len())]);
                    }
                }
                assert forall|j: int| 0 <= j < t2.stock.len() implies card_valid(
                    #[trigger] t2.stock[j],
                ) by {
                    assert(t2.stock[j] == t.stock[j]);
                }
            }
        },
        MoveKind::RedealStock => {
            assert(t2.stock.len() == t.waste.len());
            assert(tab_cards_valid(t2)) by {
                assert forall|j: int| 0 <= j < t2.stock.len() implies card_valid(
                    #[trigger] t2.stock[j],
                ) by {
                    assert(t2.stock[j] == t.waste[t.waste.len() - 1 - j]);
                }
            }
        },
    }
}

/// Which column a move removes cards from, for the exposure law.
pub open spec fn move_src_col(m: MoveKind) -> int {
    match m {
        MoveKind::ColumnToColumn { src_col, .. } => src_col as int,
        MoveKind::ColumnToFoundation { src_col } => src_col as int,
        _ => 0,
    }
}

/// True when the move removes the entire face-up suffix of its source
/// column while face-down cards remain underneath.
pub open spec fn move_empties_face_up(t: TabModel, m: MoveKind) -> bool {
    match m {
        MoveKind::ColumnToColumn { src_col, src_index, .. } => {
            &&& src_index == t.cols[src_col as int].face_down
            &&& t.cols[src_col as int].face_down > 0
        },
        MoveKind::ColumnToFoundation { src_col } => {
            &&& t.cols[src_col as int].cards.len() == t.cols[src_col as int].face_down + 1
            &&& t.cols[src_col as int].face_down > 0
        },
        _ => false,
    }
}

/// Law (automatic exposure): after any legal move that empties a
/// column's face-up suffix while face-down cards remain, that column
/// has exactly one fewer face-down card and at least one face-up card.
pub proof fn lemma_auto_exposure(t: TabModel, m: MoveKind)
    requires
        tab_good(t),
        spec_move_legal(t, m),
        move_empties_face_up(t, m),
    ensures
        spec_apply(t, m).cols[move_src_col(m)].face_down == t.cols[move_src_col(
            m,
        )].face_down - 1,
        spec_apply(t, m).cols[move_src_col(m)].face_down < spec_apply(t, m).cols[move_src_col(
            m,
        )].cards.len(),
{
    lemma_apply_preserves_good(t, m);
}

/// A standard deal produces a good position: every column shows
/// exactly one face-up card atop its face-down prefix, and the stock
/// holds the 24 undealt cards.
pub proof fn lemma_deal_good(d: Seq<Card>)
    requires
        d.len() == 52,
        forall|i: int| 0 <= i < d.len() ==> card_valid(#[trigger] d[i]),
    ensures
        tab_good(crate::tableau::spec_deal(d)),
{
    let t = crate::tableau::spec_deal(d);
    assert forall|i: int| 0 <= i < t.cols.len() implies col_good(#[trigger] t.cols[i]) by {
        assert(t.cols[i] == crate::tableau::deal_col(d, i));
        assert(t.cols[i].cards.skip(i) =~= seq![t.cols[i].cards[i]]);
    }
}

// ----- Internal helpers on Card -----

/// 0-based rank index for a card (0 = Ace, 12 = King).
fn rank_index(card: Card) -> (r: u8)
    ensures
        r == card_rank(card),
{
    card.0 % NUM_RANKS
}

/// Suit index for a card (0..4).
fn suit_index(card: Card) -> (r: u8)
    ensures
        r == card_suit(card),
{
    card.0 / NUM_RANKS
}

/// True if the card is in a red suit (hearts or diamonds).
fn card_is_red(card: Card) -> (r: bool)
    ensures
        r == card_red(card),
{
    let s = suit_index(card);
    s == 0 || s == 3
}

/// True if the two cards have opposite colors.
fn colors_differ(a: Card, b: Card) -> (r: bool)
    ensures
        r == (card_red(a) != card_red(b)),
{
    card_is_red(a) != card_is_red(b)
}

/// The foundation index for a card's suit.
pub fn foundation_index_for(card: Card) -> (r: usize)
    requires
        card_valid(card),
    ensures
        r == card_suit(card),
        r < NUM_FOUNDATIONS,
{
    (card.0 / NUM_RANKS) as usize
}

/// True if the given card can be moved to its foundation pile.
pub fn can_move_to_foundation(tab: &Tableau, card: Card) -> (r: bool)
    requires
        card_valid(card),
        tab@.found.len() == NUM_FOUNDATIONS,
    ensures
        r == spec_can_to_foundation(tab@, card),
{
    let f_idx = foundation_index_for(card);
    let top = tab.foundations[f_idx];
    let r_idx = rank_index(card);
    r_idx == top
}

/// True if `above` may be placed onto `below` in a tableau column.
fn can_place_on_column(below: Card, above: Card) -> (r: bool)
    ensures
        r == spec_can_place(below, above),
{
    colors_differ(below, above) && rank_index(below) == rank_index(above) + 1
}

/// True if the card slice (bottom of the run first) forms a valid
/// descending, alternating-color run movable as a block.
pub fn is_valid_run(cards: &[Card]) -> (r: bool)
    ensures
        r == spec_valid_run(cards@),
{
    if cards.len() == 0 {
        return false;
    }
    let mut i: usize = 0;
    while i < cards.len() - 1
        invariant
            cards@.len() > 0,
            i < cards@.len(),
            forall|k: int|
                0 <= k < i ==> one_lower_opposite_color(#[trigger] cards@[k + 1], cards@[k]),
        decreases cards@.len() - i,
    {
        let below = cards[i];
        let above = cards[i + 1];
        if !(rank_index(below) == rank_index(above) + 1 && colors_differ(below, above)) {
            return false;
        }
        i = i + 1;
    }
    true
}

/// True when some move in the list carries exactly this kind.
pub open spec fn in_moves(moves: Seq<Move>, m: MoveKind) -> bool {
    exists|i: int| 0 <= i < moves.len() && moves[i].kind == m
}

/// The catalogue group of a move kind, in the fixed enumeration
/// order: foundation moves first, then column runs, then waste
/// placements, then flips, then the stock moves.
pub open spec fn kind_phase(k: MoveKind) -> int {
    match k {
        MoveKind::ColumnToFoundation { .. } => 0,
        MoveKind::WasteToFoundation => 1,
        MoveKind::ColumnToColumn { .. } => 2,
        MoveKind::WasteToColumn { .. } => 3,
        MoveKind::FlipColumn { .. } => 4,
        MoveKind::DealFromStock => 5,
        MoveKind::RedealStock => 5,
    }
}

/// Every move kind appears at most once in the list.
pub open spec fn kinds_distinct(s: Seq<Move>) -> bool {
    forall|i: int, j: int|
        0 <= i < j < s.len() ==> (#[trigger] s[i]).kind != (#[trigger] s[j]).kind
}

/// The list is grouped by catalogue phase, in catalogue order.
pub open spec fn phase_ordered(s: Seq<Move>) -> bool {
    forall|i: int, j: int|
        0 <= i < j < s.len() ==> kind_phase((#[trigger] s[i]).kind) <= kind_phase(
            (#[trigger] s[j]).kind,
        )
}

/// Append one legal move to the list, keeping both the soundness of
/// the list and every containment fact already established.
fn push_move(moves: &mut Vec<Move>, mv: Move, Ghost(t): Ghost<TabModel>)
    requires
        spec_move_legal(t, mv.kind),
        forall|j: int|
            0 <= j < old(moves)@.len() ==> spec_move_legal(t, #[trigger] old(moves)@[j].kind),
    ensures
        final(moves)@ == old(moves)@.push(mv),
        forall|j: int|
            0 <= j < final(moves)@.len() ==> spec_move_legal(t, #[trigger] final(moves)@[j].kind),
        in_moves(final(moves)@, mv.kind),
        forall|k: MoveKind| in_moves(old(moves)@, k) ==> in_moves(final(moves)@, k),
{
    moves.push(mv);
    proof {
        let n = moves@.len() as int;
        assert(moves@[n - 1].kind == mv.kind);
        assert forall|k: MoveKind| in_moves(old(moves)@, k) implies in_moves(moves@, k) by {
            let i = choose|i: int| 0 <= i < old(moves)@.len() && old(moves)@[i].kind == k;
            assert(moves@[i].kind == k);
        }
    }
}

/// Generate every legal move from the given position, in the fixed
/// catalogue order: column-to-foundation, waste-to-foundation,
/// column-to-column, waste-to-column, flips, then stock moves.
///
/// The result is sound and complete: each listed move is legal, and
/// every legal move is listed.
pub fn generate_legal_moves(tab: &Tableau) -> (moves: Vec<Move>)
    requires
        tab_wf(tab@),
    ensures
        forall|i: int|
            0 <= i < moves@.len() ==> spec_move_legal(tab@, #[trigger] moves@[i].kind),
        forall|m: MoveKind| spec_move_legal(tab@, m) ==> in_moves(moves@, m),
        kinds_distinct(moves@),
        phase_ordered(moves@),
{
    let ghost t = tab@;
    let mut moves: Vec<Move> = Vec::new();

    // Column -> Foundation
    let mut ci: usize = 0;
    while ci < NUM_COLS
        invariant
            ci <= NUM_COLS,
            tab_wf(t),
            t == tab@,
            forall|j: int| 0 <= j < moves@.len() ==> spec_move_legal(t, #[trigger] moves@[j].kind),
            forall|c: u8|
                c < ci && #[trigger] spec_move_legal(
                    t,
                    MoveKind::ColumnToFoundation { src_col: c },
                ) ==> in_moves(moves@, MoveKind::ColumnToFoundation { src_col: c }),
            kinds_distinct(moves@),
            phase_ordered(moves@),
            forall|j: int|
                0 <= j < moves@.len() ==> kind_phase((#[trigger] moves@[j]).kind) == 0,
            forall|j: int|
                0 <= j < moves@.len() ==> ((#[trigger] moves@[j]).kind matches
                MoveKind::ColumnToFoundation { src_col } ==> (src_col as int) < ci as int),
        decreases NUM_COLS - ci,
    {
        let col = &tab.columns[ci];
        if col.num_face_down() < col.len() {
            let card = col.cards[col.cards.len() - 1];
            proof {
                assert(card_valid(t.cols[ci as int].cards.last()));
            }
            if can_move_to_foundation(tab, card) {
                push_move(&mut moves, Move { kind: MoveKind::ColumnToFoundation { src_col: ci as u8 } }, Ghost(t));
            }
        }
        ci = ci + 1;
    }

    // Waste -> Foundation
    if tab.waste.len() > 0 {
        let card = tab.waste.cards[tab.waste.cards.len() - 1];
        proof {
            assert(card_valid(t.waste.last()));
        }
        if can_move_to_foundation(tab, card) {
            push_move(&mut moves, Move { kind: MoveKind::WasteToFoundation }, Ghost(t));
        }
    }
    proof {
        assert(spec_move_legal(t, MoveKind::WasteToFoundation) ==> in_moves(
            moves@,
            MoveKind::WasteToFoundation,
        ));
    }

    // Column -> Column (runs)
    let mut si: usize = 0;
    while si < NUM_COLS
        invariant
            si <= NUM_COLS,
            tab_wf(t),
            t == tab@,
            forall|j: int| 0 <= j < moves@.len() ==> spec_move_legal(t, #[trigger] moves@[j].kind),
            forall|c: u8|
                #[trigger] spec_move_legal(t, MoveKind::ColumnToFoundation { src_col: c })
                    ==> in_moves(moves@, MoveKind::ColumnToFoundation { src_col: c }),
            spec_move_legal(t, MoveKind::WasteToFoundation) ==> in_moves(
                moves@,
                MoveKind::WasteToFoundation,
            ),
            forall|s: u8, i: u8, d: u8|
                s < si && #[trigger] spec_move_legal(
                    t,
                    MoveKind::ColumnToColumn { src_col: s, src_index: i, dst_col: d },
                ) ==> in_moves(
                    moves@,
                    MoveKind::ColumnToColumn { src_col: s, src_index: i, dst_col: d },
                ),
            kinds_distinct(moves@),
            phase_ordered(moves@),
            forall|j: int|
                0 <= j < moves@.len() ==> kind_phase((#[trigger] moves@[j]).kind) <= 2,
            forall|j: int|
                0 <= j < moves@.len() ==> ((#[trigger] moves@[j]).kind matches
                MoveKind::ColumnToColumn { src_col, src_index, dst_col } ==> (src_col as int)
                < si as int),
        decreases NUM_COLS - si,
    {
        let col = &tab.columns[si];
        let len = col.cards.len();
        let first_face_up = col.num_face_down;
        let mut st: usize = first_face_up;
        while st < len
            invariant
                first_face_up <= st,
                st <= len || st == first_face_up,
                si < NUM_COLS,
                len == t.cols[si as int].cards.len(),
                first_face_up == t.cols[si as int].face_down,
                tab_wf(t),
                t == tab@,
                col == &tab.columns[si as int],
                forall|j: int|
                    0 <= j < moves@.len() ==> spec_move_legal(t, #[trigger] moves@[j].kind),
                forall|c: u8|
                    #[trigger] spec_move_legal(t, MoveKind::ColumnToFoundation { src_col: c })
                        ==> in_moves(moves@, MoveKind::ColumnToFoundation { src_col: c }),
                spec_move_legal(t, MoveKind::WasteToFoundation) ==> in_moves(
                    moves@,
                    MoveKind::WasteToFoundation,
                ),
                forall|s: u8, i: u8, d: u8|
                    s < si && #[trigger] spec_move_legal(
                        t,
                        MoveKind::ColumnToColumn { src_col: s, src_index: i, dst_col: d },
                    ) ==> in_moves(
                        moves@,
                        MoveKind::ColumnToColumn { src_col: s, src_index: i, dst_col: d },
                    ),
                forall|i: u8, d: u8|
                    i < st && #[trigger] spec_move_legal(
                        t,
                        MoveKind::ColumnToColumn { src_col: si as u8, src_index: i, dst_col: d },
                    ) ==> in_moves(
                        moves@,
                        MoveKind::ColumnToColumn { src_col: si as u8, src_index: i, dst_col: d },
                    ),
                kinds_distinct(moves@),
                phase_ordered(moves@),
                forall|j: int|
                    0 <= j < moves@.len() ==> kind_phase((#[trigger] moves@[j]).kind) <= 2,
                forall|j: int|
                    0 <= j < moves@.len() ==> ((#[trigger] moves@[j]).kind matches
                    MoveKind::ColumnToColumn { src_col, src_index, dst_col } ==> (src_col as int)
                    < si as int || ((src_col as int) == si as int && (src_index as int)
                    < st as int)),
            decreases len - st,
        {
            let run_slice = &col.cards[st..len];
            proof {
                assert(run_slice@ =~= t.cols[si as int].cards.skip(st as int));
            }
            if is_valid_run(run_slice) {
                let run_top_card = col.cards[st];
                let mut di: usize = 0;
                while di < NUM_COLS
                    invariant
                        di <= NUM_COLS,
                        si < NUM_COLS,
                        st < len,
                        len == t.cols[si as int].cards.len(),
                        first_face_up == t.cols[si as int].face_down,
                        first_face_up <= st,
                        spec_valid_run(t.cols[si as int].cards.skip(st as int)),
                        run_top_card == t.cols[si as int].cards[st as int],
                        tab_wf(t),
                        t == tab@,
                        forall|j: int|
                            0 <= j < moves@.len() ==> spec_move_legal(
                                t,
                                #[trigger] moves@[j].kind,
                            ),
                        forall|c: u8|
                            #[trigger] spec_move_legal(
                                t,
                                MoveKind::ColumnToFoundation { src_col: c },
                            ) ==> in_moves(moves@, MoveKind::ColumnToFoundation { src_col: c }),
                        spec_move_legal(t, MoveKind::WasteToFoundation) ==> in_moves(
                            moves@,
                            MoveKind::WasteToFoundation,
                        ),
                        forall|s: u8, i: u8, d: u8|
                            s < si && #[trigger] spec_move_legal(
                                t,
                                MoveKind::ColumnToColumn {
                                    src_col: s,
                                    src_index: i,
                                    dst_col: d,
                                },
                            ) ==> in_moves(
                                moves@,
                                MoveKind::ColumnToColumn {
                                    src_col: s,
                                    src_index: i,
                                    dst_col: d,
                                },
                            ),
                        forall|i: u8, d: u8|
                            i < st && #[trigger] spec_move_legal(
                                t,
                                MoveKind::ColumnToColumn {
                                    src_col: si as u8,
                                    src_index: i,
                                    dst_col: d,
                                },
                            ) ==> in_moves(
                                moves@,
                                MoveKind::ColumnToColumn {
                                    src_col: si as u8,
                                    src_index: i,
                                    dst_col: d,
                                },
                            ),
                        forall|d: u8|
                            d < di && #[trigger] spec_move_legal(
                                t,
                                MoveKind::ColumnToColumn {
                                    src_col: si as u8,
                                    src_index: st as u8,
                                    dst_col: d,
                                },
                            ) ==> in_moves(
                                moves@,
                                MoveKind::ColumnToColumn {
                                    src_col: si as u8,
                                    src_index: st as u8,
                                    dst_col: d,
                                },
                            ),
                        kinds_distinct(moves@),
                        phase_ordered(moves@),
                        forall|j: int|
                            0 <= j < moves@.len() ==> kind_phase((#[trigger] moves@[j]).kind)
                                <= 2,
                        forall|j: int|
                            0 <= j < moves@.len() ==> ((#[trigger] moves@[j]).kind matches
                            MoveKind::ColumnToColumn { src_col, src_index, dst_col } ==> (
                            src_col as int) < si as int || ((src_col as int) == si as int && (
                            src_index as int) < st as int) || ((src_col as int) == si as int && (
                            src_index as int) == st as int && (dst_col as int) < di as int)),
                    decreases NUM_COLS - di,
                {
                    if di != si {
                        let dst = &tab.columns[di];
                        if dst.cards.len() == 0 {
                            if rank_index(run_top_card) == 12 {
                                push_move(&mut moves,
                                    Move {
                                        kind: MoveKind::ColumnToColumn {
                                            src_col: si as u8,
                                            src_index: st as u8,
                                            dst_col: di as u8,
                                        },
                                    }, Ghost(t),
                                );
                            }
                        } else if dst.num_face_down < dst.cards.len() {
                            let dst_top = dst.cards[dst.cards.len() - 1];
                            if can_place_on_column(dst_top, run_top_card) {
                                push_move(&mut moves,
                                    Move {
                                        kind: MoveKind::ColumnToColumn {
                                            src_col: si as u8,
                                            src_index: st as u8,
                                            dst_col: di as u8,
                                        },
                                    }, Ghost(t),
                                );
                            }
                        }
                    }
                    di = di + 1;
                }
            }
            st = st + 1;
        }
        si = si + 1;
    }

    // Waste -> Column
    if tab.waste.len() > 0 {
        let card = tab.waste.cards[tab.waste.cards.len() - 1];
        let mut di: usize = 0;
        while di < NUM_COLS
            invariant
                di <= NUM_COLS,
                t.waste.len() > 0,
                card == t.waste.last(),
                tab_wf(t),
                t == tab@,
                forall|j: int|
                    0 <= j < moves@.len() ==> spec_move_legal(t, #[trigger] moves@[j].kind),
                forall|c: u8|
                    #[trigger] spec_move_legal(t, MoveKind::ColumnToFoundation { src_col: c })
                        ==> in_moves(moves@, MoveKind::ColumnToFoundation { src_col: c }),
                spec_move_legal(t, MoveKind::WasteToFoundation) ==> in_moves(
                    moves@,
                    MoveKind::WasteToFoundation,
                ),
                forall|s: u8, i: u8, d: u8|
                    #[trigger] spec_move_legal(
                        t,
                        MoveKind::ColumnToColumn { src_col: s, src_index: i, dst_col: d },
                    ) ==> in_moves(
                        moves@,
                        MoveKind::ColumnToColumn { src_col: s, src_index: i, dst_col: d },
                    ),
                forall|d: u8|
                    d < di && #[trigger] spec_move_legal(
                        t,
                        MoveKind::WasteToColumn { dst_col: d },
                    ) ==> in_moves(moves@, MoveKind::WasteToColumn { dst_col: d }),
                kinds_distinct(moves@),
                phase_ordered(moves@),
                forall|j: int|
                    0 <= j < moves@.len() ==> kind_phase((#[trigger] moves@[j]).kind) <= 3,
                forall|j: int|
                    0 <= j < moves@.len() ==> ((#[trigger] moves@[j]).kind matches
                    MoveKind::WasteToColumn { dst_col } ==> (dst_col as int) < di as int),
            decreases NUM_COLS - di,
        {
            let dst = &tab.columns[di];
            if dst.cards.len() == 0 {
                if rank_index(card) == 12 {
                    push_move(&mut moves, Move { kind: MoveKind::WasteToColumn { dst_col: di as u8 } }, Ghost(t));
                }
            } else if dst.num_face_down < dst.cards.len() {
                let dst_top = dst.cards[dst.cards.len() - 1];
                if can_place_on_column(dst_top, card) {
                    push_move(&mut moves, Move { kind: MoveKind::WasteToColumn { dst_col: di as u8 } }, Ghost(t));
                }
            }
            di = di + 1;
        }
    }

    // FlipColumn: any column with cards but all face-down.
    let mut ci: usize = 0;
    while ci < NUM_COLS
        invariant
            ci <= NUM_COLS,
            tab_wf(t),
            t == tab@,
            forall|j: int| 0 <= j < moves@.len() ==> spec_move_legal(t, #[trigger] moves@[j].kind),
            forall|c: u8|
                #[trigger] spec_move_legal(t, MoveKind::ColumnToFoundation { src_col: c })
                    ==> in_moves(moves@, MoveKind::ColumnToFoundation { src_col: c }),
            spec_move_legal(t, MoveKind::WasteToFoundation) ==> in_moves(
                moves@,
                MoveKind::WasteToFoundation,
            ),
            forall|s: u8, i: u8, d: u8|
                #[trigger] spec_move_legal(
                    t,
                    MoveKind::ColumnToColumn { src_col: s, src_index: i, dst_col: d },
                ) ==> in_moves(
                    moves@,
                    MoveKind::ColumnToColumn { src_col: s, src_index: i, dst_col: d },
                ),
            forall|d: u8|
                #[trigger] spec_move_legal(t, MoveKind::WasteToColumn { dst_col: d })
                    ==> in_moves(moves@, MoveKind::WasteToColumn { dst_col: d }),
            forall|c: u8|
                c < ci && #[trigger] spec_move_legal(t, MoveKind::FlipColumn { col: c })
                    ==> in_moves(moves@, MoveKind::FlipColumn { col: c }),
            kinds_distinct(moves@),
            phase_ordered(moves@),
            forall|j: int|
                0 <= j < moves@.len() ==> kind_phase((#[trigger] moves@[j]).kind) <= 4,
            forall|j: int|
                0 <= j < moves@.len() ==> ((#[trigger] moves@[j]).kind matches
                MoveKind::FlipColumn { col } ==> (col as int) < ci as int),
        decreases NUM_COLS - ci,
    {
        let col = &tab.columns[ci];
        if col.cards.len() > 0 && col.num_face_down == col.cards.len() {
            push_move(&mut moves, Move { kind: MoveKind::FlipColumn { col: ci as u8 } }, Ghost(t));
        }
        ci = ci + 1;
    }

    // Stock moves: deal while the stock has cards; redeal when it is
    // empty and the waste is not.
    if tab.stock.len() > 0 {
        push_move(&mut moves, Move { kind: MoveKind::DealFromStock }, Ghost(t));
    } else if tab.waste.len() > 0 {
        push_move(&mut moves, Move { kind: MoveKind::RedealStock }, Ghost(t));
    }

    proof {
        assert forall|m: MoveKind| spec_move_legal(t, m) implies in_moves(moves@, m) by {
            match m {
                MoveKind::ColumnToColumn { src_col, src_index, dst_col } => {
                    assert(spec_move_legal(
                        t,
                        MoveKind::ColumnToColumn { src_col, src_index, dst_col },
                    ));
                },
                MoveKind::ColumnToFoundation { src_col } => {
                    assert(spec_move_legal(t, MoveKind::ColumnToFoundation { src_col }));
                },
                MoveKind::WasteToColumn { dst_col } => {
                    assert(spec_move_legal(t, MoveKind::WasteToColumn { dst_col }));
                },
                MoveKind::WasteToFoundation => {},
                MoveKind::FlipColumn { col } => {
                    assert(spec_move_legal(t, MoveKind::FlipColumn { col }));
                },
                MoveKind::DealFromStock => {},
                MoveKind::RedealStock => {},
            }
        }
    }
    moves
}

/// The display name of a suit index.
pub open spec fn suit_name(s: int) -> Seq<char> {
    if s == 0 {
        "Hearts"@
    } else if s == 1 {
        "Clubs"@
    } else if s == 2 {
        "Spades"@
    } else {
        "Diamonds"@
    }
}

/// A move can be described against a position when the piles it
/// names exist and hold the cards it would show.
pub open spec fn describable(t: TabModel, m: MoveKind) -> bool {
    match m {
        MoveKind::ColumnToColumn { src_col, src_index, dst_col } => {
            &&& src_col < NUM_COLS
            &&& dst_col < NUM_COLS
            &&& (src_index as int) < t.cols[src_col as int].cards.len()
        },
        MoveKind::ColumnToFoundation { src_col } => {
            &&& src_col < NUM_COLS
            &&& t.cols[src_col as int].cards.len() > 0
        },
        MoveKind::WasteToColumn { dst_col } => dst_col < NUM_COLS,
        MoveKind::FlipColumn { col } => col < NUM_COLS,
        _ => true,
    }
}

/// The exact human-readable description of a move, relative to the
/// position it was generated from.
pub open spec fn spec_describe(t: TabModel, m: MoveKind) -> Seq<char> {
    match m {
        MoveKind::ColumnToColumn { src_col, src_index, dst_col } => {
            let col = t.cols[src_col as int];
            let run_top = col.cards[src_index as int];
            let run_bottom = col.cards.last();
            if src_index + 1 == col.cards.len() {
                "Column "@ + dec_digits(src_col + 1) + ": "@ + card_str(run_top) + " -> Column "@
                    + dec_digits(dst_col + 1)
            } else {
                "Column "@ + dec_digits(src_col + 1) + ": "@ + card_str(run_top) + ".."@
                    + card_str(run_bottom) + " -> Column "@ + dec_digits(dst_col + 1)
            }
        },
        MoveKind::ColumnToFoundation { src_col } => {
            let top = t.cols[src_col as int].cards.last();
            "Column "@ + dec_digits(src_col + 1) + ": "@ + card_str(top) + " -> Foundation("@
                + suit_name(card_suit(top) as int) + ")"@
        },
        MoveKind::WasteToColumn { dst_col } => {
            if t.waste.len() > 0 {
                "Waste: "@ + card_str(t.waste.last()) + " -> Column "@ + dec_digits(dst_col + 1)
            } else {
                "Waste (empty) -> Column "@ + dec_digits(dst_col + 1)
            }
        },
        MoveKind::WasteToFoundation => {
            if t.waste.len() > 0 {
                "Waste: "@ + card_str(t.waste.last()) + " -> Foundation("@ + suit_name(
                    card_suit(t.waste.last()) as int,
                ) + ")"@
            } else {
                "Waste (empty) -> Foundation"@
            }
        },
        MoveKind::FlipColumn { col } => {
            let c = t.cols[col as int];
            if c.cards.len() > 0 {
                "Flip Column "@ + dec_digits(col + 1) + " top card "@ + card_str(c.cards.last())
                    + " face-up"@
            } else {
                "Flip Column "@ + dec_digits(col + 1) + " (empty)"@
            }
        },
        MoveKind::DealFromStock => "Deal from Stock (draw up to 3 cards)"@,
        MoveKind::RedealStock => "Redeal Stock from Waste"@,
    }
}

/// Append a suit's display name.
fn push_suit_name(s: &mut String, card: Card)
    requires
        card_valid(card),
    ensures
        final(s)@ == old(s)@ + suit_name(card_suit(card) as int),
{
    let idx = suit_index(card);
    if idx == 0 {
        s.append("Hearts");
    } else if idx == 1 {
        s.append("Clubs");
    } else if idx == 2 {
        s.append("Spades");
    } else {
        s.append("Diamonds");
    }
}

impl Move {
    /// Render this move as a human-readable string, reading card
    /// identities from the position the move was generated from.
    pub fn describe(&self, tab: &Tableau) -> (r: String)
        requires
            tab_wf(tab@),
            describable(tab@, self.kind),
        ensures
            r@ == spec_describe(tab@, self.kind),
    {
        let ghost t = tab@;
        let mut s = String::new();
        match self.kind {
            MoveKind::ColumnToColumn { src_col, src_index, dst_col } => {
                let col = &tab.columns[src_col as usize];
                let start = src_index as usize;
                let end = col.cards.len();
                let run_top = col.cards[start];
                let run_bottom = col.cards[end - 1];
                let ts = run_top.short_str();
                s.append("Column ");
                push_u8_decimal(&mut s, src_col + 1);
                s.append(": ");
                s.append(ts.as_str());
                if start + 1 == end {
                    s.append(" -> Column ");
                    push_u8_decimal(&mut s, dst_col + 1);
                } else {
                    let bs = run_bottom.short_str();
                    s.append("..");
                    s.append(bs.as_str());
                    s.append(" -> Column ");
                    push_u8_decimal(&mut s, dst_col + 1);
                }
                proof {
                    assert(s@ =~= spec_describe(t, self.kind));
                }
            },
            MoveKind::ColumnToFoundation { src_col } => {
                let col = &tab.columns[src_col as usize];
                let top = col.cards[col.cards.len() - 1];
                let ts = top.short_str();
                s.append("Column ");
                push_u8_decimal(&mut s, src_col + 1);
                s.append(": ");
                s.append(ts.as_str());
                s.append(" -> Foundation(");
                push_suit_name(&mut s, top);
                s.append(")");
                proof {
                    assert(s@ =~= spec_describe(t, self.kind));
                }
            },
            MoveKind::WasteToColumn { dst_col } => {
                if tab.waste.cards.len() > 0 {
                    let card = tab.waste.cards[tab.waste.cards.len() - 1];
                    proof {
                        assert(card_valid(t.waste[t.waste.len() - 1]));
                    }
                    let cs = card.short_str();
                    s.append("Waste: ");
                    s.append(cs.as_str());
                    s.append(" -> Column ");
                    push_u8_decimal(&mut s, dst_col + 1);
                } else {
                    s.append("Waste (empty) -> Column ");
                    push_u8_decimal(&mut s, dst_col + 1);
                }
                proof {
                    assert(s@ =~= spec_describe(t, self.kind));
                }
            },
            MoveKind::WasteToFoundation => {
                if tab.waste.cards.len() > 0 {
                    let card = tab.waste.cards[tab.waste.cards.len() - 1];
                    proof {
                        assert(card_valid(t.waste[t.waste.len() - 1]));
                    }
                    let cs = card.short_str();
                    s.append("Waste: ");
                    s.append(cs.as_str());
                    s.append(" -> Foundation(");
                    push_suit_name(&mut s, card);
                    s.append(")");
                } else {
                    s.append("Waste (empty) -> Foundation");
                }
                proof {
                    assert(s@ =~= spec_describe(t, self.kind));
                }
            },
            MoveKind::FlipColumn { col } => {
                let c = &tab.columns[col as usize];
                if c.cards.len() > 0 {
                    let top = c.cards[c.cards.len() - 1];
                    proof {
                        assert(card_valid(
                            t.cols[col as int].cards[t.cols[col as int].cards.len() - 1],
                        ));
                    }
                    let ts = top.short_str();
                    s.append("Flip Column ");
                    push_u8_decimal(&mut s, col + 1);
                    s.append(" top card ");
                    s.append(ts.as_str());
                    s.append(" face-up");
                } else {
                    s.append("Flip Column ");
                    push_u8_decimal(&mut s, col + 1);
                    s.append(" (empty)");
                }
                proof {
                    assert(s@ =~= spec_describe(t, self.kind));
                }
            },
            MoveKind::DealFromStock => {
                s.append("Deal from Stock (draw up to 3 cards)");
                proof {
                    assert(s@ =~= spec_describe(t, self.kind));
                }
            },
            MoveKind::RedealStock => {
                s.append("Redeal Stock from Waste");
                proof {
                    assert(s@ =~= spec_describe(t, self.kind));
                }
            },
        }
        s
    }
}

/// After cards were removed from the top of a column: if the column
/// still has cards and all of them are face-down, the newly exposed
/// top card is unconditionally turned face-up.
fn flip_exposed_card_after_removal(col: &mut Column)
    requires
        col_shape(old(col)@),
    ensures
        final(col)@ == expose_after_removal(old(col)@),
        col_shape(final(col)@),
{
    if col.cards.len() > 0 && col.cards.len() == col.num_face_down {
        col.num_face_down = col.num_face_down - 1;
    }
}

/// Move the run starting at `src_index` (bottom-based storage index)
/// from `src` to `dst`, preserving order, then apply the automatic
/// exposure rule to the shrunk source column.
fn move_run_between_columns(src: &mut Column, dst: &mut Column, src_index: u8)
    requires
        col_shape(old(src)@),
        old(src)@.face_down <= src_index < old(src)@.cards.len(),
        old(dst)@.cards.len() + old(src)@.cards.len() <= usize::MAX,
    ensures
        final(src)@ == expose_after_removal(
            ColModel {
                cards: old(src)@.cards.take(src_index as int),
                face_down: old(src)@.face_down,
            },
        ),
        final(dst)@.cards == old(dst)@.cards + old(src)@.cards.skip(src_index as int),
        final(dst)@.face_down == old(dst)@.face_down,
{
    let ghost src0 = src@;
    let ghost dst0 = dst@;
    let start = src_index as usize;
    let mut k: usize = start;
    while k < src.cards.len()
        invariant
            start <= k <= src0.cards.len(),
            src@ == src0,
            dst@.face_down == dst0.face_down,
            dst@.cards == dst0.cards + src0.cards.subrange(start as int, k as int),
            dst0.cards.len() + src0.cards.len() <= usize::MAX,
        decreases src0.cards.len() - k,
    {
        dst.cards.push(src.cards[k]);
        proof {
            assert(src0.cards.subrange(start as int, k + 1) =~= src0.cards.subrange(
                start as int,
                k as int,
            ).push(src0.cards[k as int]));
        }
        k = k + 1;
    }
    proof {
        assert(src0.cards.subrange(start as int, src0.cards.len() as int) =~= src0.cards.skip(
            start as int,
        ));
    }
    src.cards.truncate(start);
    flip_exposed_card_after_removal(src);
}

impl Move {
    /// Apply this move to the given tableau, mutating it in place.
    ///
    /// The move must be legal for exactly this position (as produced by
    /// `generate_legal_moves`); applying any other move is a contract
    /// violation, not a reported error.
    pub fn apply(&self, tab: &mut Tableau)
        requires
            tab_wf(old(tab)@),
            spec_move_legal(old(tab)@, self.kind),
        ensures
            final(tab)@ == spec_apply(old(tab)@, self.kind),
    {
        let ghost t0 = tab@;
        match self.kind {
            MoveKind::ColumnToColumn { src_col, src_index, dst_col } => {
                let s = src_col as usize;
                let di = dst_col as usize;
                let mut scol = tab.columns[s].clone();
                let mut dcol = tab.columns[di].clone();
                move_run_between_columns(&mut scol, &mut dcol, src_index);
                tab.columns[s] = scol;
                tab.columns[di] = dcol;
                proof {
                    assert(tab@.cols =~= spec_apply(t0, self.kind).cols);
                    assert(tab@ =~= spec_apply(t0, self.kind));
                }
            },
            MoveKind::ColumnToFoundation { src_col } => {
                let s = src_col as usize;
                let mut scol = tab.columns[s].clone();
                let card = scol.cards.pop().unwrap();
                flip_exposed_card_after_removal(&mut scol);
                tab.columns[s] = scol;
                let f_idx = foundation_index_for(card);
                let r_idx = rank_index(card);
                tab.foundations[f_idx] = r_idx + 1;
                proof {
                    assert(t0.cols[src_col as int].cards.drop_last() =~= t0.cols[
                        src_col as int
                    ].cards.take(t0.cols[src_col as int].cards.len() - 1));
                    assert(tab@.cols =~= spec_apply(t0, self.kind).cols);
                    assert(tab@.found =~= spec_apply(t0, self.kind).found);
                    assert(tab@ =~= spec_apply(t0, self.kind));
                }
            },
            MoveKind::WasteToColumn { dst_col } => {
                let di = dst_col as usize;
                let card = tab.waste.pop().unwrap();
                let mut dcol = tab.columns[di].clone();
                dcol.cards.push(card);
                tab.columns[di] = dcol;
                proof {
                    assert(tab@.cols =~= spec_apply(t0, self.kind).cols);
                    assert(tab@ =~= spec_apply(t0, self.kind));
                }
            },
            MoveKind::WasteToFoundation => {
                let card = tab.waste.pop().unwrap();
                let f_idx = foundation_index_for(card);
                let r_idx = rank_index(card);
                tab.foundations[f_idx] = r_idx + 1;
                proof {
                    assert(tab@.found =~= spec_apply(t0, self.kind).found);
                    assert(tab@ =~= spec_apply(t0, self.kind));
                }
            },
            MoveKind::FlipColumn { col } => {
                let c = col as usize;
                let mut ccol = tab.columns[c].clone();
                flip_exposed_card_after_removal(&mut ccol);
                tab.columns[c] = ccol;
                proof {
                    assert(tab@.cols =~= spec_apply(t0, self.kind).cols);
                    assert(tab@ =~= spec_apply(t0, self.kind));
                }
            },
            MoveKind::DealFromStock => {
                let k: usize = if tab.stock.len() >= 3 {
                    3
                } else {
                    tab.stock.len()
                };
                let mut n: usize = 0;
                while n < k
                    invariant
                        n <= k,
                        k <= t0.stock.len(),
                        k <= 3,
                        tab@.stock == t0.stock.take(t0.stock.len() - n),
                        tab@.waste == t0.waste + t0.stock.skip(t0.stock.len() - n).reverse(),
                        tab@.cols == t0.cols,
                        tab@.found == t0.found,
                    decreases k - n,
                {
                    let card = tab.stock.pop().unwrap();
                    tab.waste.push(card);
                    proof {
                        let m = t0.stock.len() as int;
                        assert(t0.stock.take(m - n).drop_last() =~= t0.stock.take(m - (n + 1)));
                        assert(t0.stock.take(m - n).last() == t0.stock[m - n - 1]);
                        assert(t0.stock.skip(m - (n + 1)).reverse() =~= t0.stock.skip(
                            m - n,
                        ).reverse().push(t0.stock[m - n - 1]));
                    }
                    n = n + 1;
                }
                proof {
                    assert(tab@ =~= spec_apply(t0, self.kind));
                }
            },
            MoveKind::RedealStock => {
                while tab.waste.len() > 0
                    invariant
                        tab@.waste == t0.waste.take(tab@.waste.len() as int),
                        tab@.stock == t0.stock + t0.waste.skip(tab@.waste.len() as int).reverse(),
                        tab@.cols == t0.cols,
                        tab@.found == t0.found,
                        tab@.waste.len() <= t0.waste.len(),
                    decreases tab@.waste.len(),
                {
                    let card = tab.waste.pop().unwrap();
                    tab.stock.push(card);
                    proof {
                        let n = tab@.waste.len() as int;
                        assert(t0.waste.take(n + 1).drop_last() =~= t0.waste.take(n));
                        assert(t0.waste.take(n + 1).last() == t0.waste[n]);
                        assert(t0.waste.skip(n).reverse() =~= t0.waste.skip(n + 1).reverse().push(
                            t0.waste[n],
                        ));
                    }
                }
                proof {
                    assert(t0.waste.skip(0).reverse() =~= t0.waste.reverse());
                    assert(t0.stock.len() == 0);
                    assert(t0.stock + t0.waste.reverse() =~= t0.waste.reverse());
                    assert(tab@.waste =~= Seq::<Card>::empty());
                    assert(tab@ =~= spec_apply(t0, self.kind));
                }
            },
        }
    }
}

} // verus!
