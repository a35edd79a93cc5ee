//! Tableau representation for a Klondike (draw-3) game position.
//!
//! A position is a fixed-shape aggregate: one stock pile, one waste pile,
//! seven columns (face-down prefix plus face-up suffix), and four
//! foundation counters. The mathematical model of a position is
//! [`TabModel`], and every operation's contract is stated against it.

use crate::card::{Card, card_valid, CARDS_PER_DECK};
use vstd::prelude::*;

verus! {

/// Number of tableau columns.
pub const NUM_COLS: usize = 7;
/// Number of foundation piles (one per suit).
pub const NUM_FOUNDATIONS: usize = 4;
/// Maximum number of cards in the stock pile at any time.
pub const MAX_STOCK: usize = 24;
/// Maximum number of cards in the waste pile.
pub const MAX_WASTE: usize = 24;
/// Maximum cards in a single tableau column: up to 6 face-down from the
/// initial deal plus a full King..Ace run of 13 face-up cards.
pub const MAX_COL: usize = 19;

/// Mathematical model of one column: the card sequence from bottom to
/// top, and how many cards of its prefix are face-down.
#[verifier::ext_equal]
pub ghost struct ColModel {
    pub cards: Seq<Card>,
    pub face_down: int,
}

/// Mathematical model of a whole position. Foundations are counters:
/// `found[s] == n` means ranks `0..n` of suit `s` are already up.
#[verifier::ext_equal]
pub ghost struct TabModel {
    pub stock: Seq<Card>,
    pub waste: Seq<Card>,
    pub cols: Seq<ColModel>,
    pub found: Seq<int>,
}

/// A simple stack-like pile; index 0 is the bottom, the last index the top.
#[derive(Debug)]
pub struct Pile {
    pub cards: Vec<Card>,
}

impl View for Pile {
    type V = Seq<Card>;

    open spec fn view(&self) -> Seq<Card> {
        self.cards@
    }
}

impl Clone for Pile {
    fn clone(&self) -> (res: Self)
        ensures
            res@ == self@,
    {
        Pile { cards: self.cards.clone() }
    }
}

impl Pile {
    /// Create an empty pile.
    pub fn new() -> (p: Pile)
        ensures
            p@ == Seq::<Card>::empty(),
    {
        Pile { cards: Vec::new() }
    }

    /// Current length of the pile.
    pub fn len(&self) -> (n: usize)
        ensures
            n == self@.len(),
    {
        self.cards.len()
    }

    /// True if the pile has no cards.
    pub fn is_empty(&self) -> (r: bool)
        ensures
            r == (self@.len() == 0),
    {
        self.cards.len() == 0
    }

    /// Push a card onto the top of the pile.
    pub fn push(&mut self, card: Card)
        ensures
            final(self)@ == old(self)@.push(card),
    {
        self.cards.push(card);
    }

    /// Pop the top card from the pile; `None` when the pile is empty.
    pub fn pop(&mut self) -> (r: Option<Card>)
        ensures
            old(self)@.len() == 0 ==> r is None && final(self)@ == old(self)@,
            old(self)@.len() > 0 ==> r == Some(old(self)@.last()) && final(self)@ == old(
                self,
            )@.drop_last(),
    {
        self.cards.pop()
    }

    /// Peek at the top card without removing it.
    pub fn top(&self) -> (r: Option<Card>)
        ensures
            self@.len() == 0 ==> r is None,
            self@.len() > 0 ==> r == Some(self@.last()),
    {
        if self.cards.len() == 0 {
            None
        } else {
            Some(self.cards[self.cards.len() - 1])
        }
    }

    /// All cards from bottom to top, as a fresh vector.
    pub fn iter(&self) -> (r: Vec<Card>)
        ensures
            r@ == self@,
    {
        self.cards.clone()
    }
}

/// A tableau column: a face-down prefix (`num_face_down` cards, counted
/// from the bottom) followed by a face-up suffix.
#[derive(Debug)]
pub struct Column {
    pub cards: Vec<Card>,
    pub num_face_down: usize,
}

impl View for Column {
    type V = ColModel;

    open spec fn view(&self) -> ColModel {
        ColModel { cards: self.cards@, face_down: self.num_face_down as int }
    }
}

impl Clone for Column {
    fn clone(&self) -> (res: Self)
        ensures
            res@ == self@,
    {
        Column { cards: self.cards.clone(), num_face_down: self.num_face_down }
    }
}

/// A column is shaped correctly when its face-down count does not exceed
/// its length.
pub open spec fn col_shape(c: ColModel) -> bool {
    0 <= c.face_down <= c.cards.len()
}

impl Column {
    /// Create an empty column.
    pub fn new() -> (c: Column)
        ensures
            c@.cards == Seq::<Card>::empty(),
            c@.face_down == 0,
    {
        Column { cards: Vec::new(), num_face_down: 0 }
    }

    /// Total number of cards in the column.
    pub fn len(&self) -> (n: usize)
        ensures
            n == self@.cards.len(),
    {
        self.cards.len()
    }

    /// Number of face-down cards at the bottom of the column.
    pub fn num_face_down(&self) -> (n: usize)
        ensures
            n == self@.face_down,
    {
        self.num_face_down
    }

    /// Number of face-up cards in the column.
    pub fn num_face_up(&self) -> (n: usize)
        requires
            col_shape(self@),
        ensures
            n == self@.cards.len() - self@.face_down,
    {
        self.cards.len() - self.num_face_down
    }

    /// True if the column has no cards.
    pub fn is_empty(&self) -> (r: bool)
        ensures
            r == (self@.cards.len() == 0),
    {
        self.cards.len() == 0
    }

    /// Push a card onto the top of the column. A face-down card may only
    /// be pushed while the whole column is face-down, so that the
    /// face-down cards always form a prefix.
    pub fn push(&mut self, card: Card, face_down: bool)
        requires
            face_down ==> old(self)@.face_down == old(self)@.cards.len(),
            old(self)@.cards.len() < usize::MAX,
        ensures
            final(self)@.cards == old(self)@.cards.push(card),
            final(self)@.face_down == old(self)@.face_down + (if face_down {
                1int
            } else {
                0int
            }),
    {
        self.cards.push(card);
        if face_down {
            self.num_face_down = self.num_face_down + 1;
        }
    }

    /// Peek at the top card (face-up or face-down; no visibility rules).
    pub fn top(&self) -> (r: Option<Card>)
        ensures
            self@.cards.len() == 0 ==> r is None,
            self@.cards.len() > 0 ==> r == Some(self@.cards.last()),
    {
        if self.cards.len() == 0 {
            None
        } else {
            Some(self.cards[self.cards.len() - 1])
        }
    }

    /// All cards from bottom to top, as a fresh vector.
    pub fn iter_all(&self) -> (r: Vec<Card>)
        ensures
            r@ == self@.cards,
    {
        self.cards.clone()
    }

    /// Just the face-up suffix of the column, from bottom to top.
    pub fn iter_face_up(&self) -> (r: Vec<Card>)
        requires
            col_shape(self@),
        ensures
            r@ == self@.cards.skip(self@.face_down),
    {
        let mut r: Vec<Card> = Vec::new();
        let mut i: usize = self.num_face_down;
        while i < self.cards.len()
            invariant
                self@.face_down <= i <= self@.cards.len(),
                r@ == self@.cards.subrange(self@.face_down, i as int),
            decreases self@.cards.len() - i,
        {
            r.push(self.cards[i]);
            assert(self@.cards.subrange(self@.face_down, i + 1) == self@.cards.subrange(
                self@.face_down,
                i as int,
            ).push(self@.cards[i as int]));
            i = i + 1;
        }
        assert(r@ == self@.cards.skip(self@.face_down));
        r
    }
}

/// Shape of a well-formed position: seven columns, four foundation
/// counters in `0..=13`, and every column's face-down count within range.
pub open spec fn tab_shape(t: TabModel) -> bool {
    &&& t.cols.len() == NUM_COLS
    &&& t.found.len() == NUM_FOUNDATIONS
    &&& forall|i: int| 0 <= i < t.cols.len() ==> col_shape(#[trigger] t.cols[i])
    &&& forall|i: int| 0 <= i < t.found.len() ==> 0 <= #[trigger] t.found[i] <= 13
}

/// Every card held anywhere in the position is a valid card value.
pub open spec fn tab_cards_valid(t: TabModel) -> bool {
    &&& forall|i: int| 0 <= i < t.stock.len() ==> card_valid(#[trigger] t.stock[i])
    &&& forall|i: int| 0 <= i < t.waste.len() ==> card_valid(#[trigger] t.waste[i])
    &&& forall|c: int, i: int|
        0 <= c < t.cols.len() && 0 <= i < t.cols[c].cards.len() ==> card_valid(
            #[trigger] t.cols[c].cards[i],
        )
}

/// Capacity bounds: no pile ever exceeds its fixed maximum.
pub open spec fn tab_bounded(t: TabModel) -> bool {
    &&& t.stock.len() <= MAX_STOCK
    &&& t.waste.len() <= MAX_WASTE
    &&& forall|i: int| 0 <= i < t.cols.len() ==> (#[trigger] t.cols[i]).cards.len() <= MAX_COL
}

/// Well-formed position: correct shape, valid cards, bounded piles.
pub open spec fn tab_wf(t: TabModel) -> bool {
    tab_shape(t) && tab_cards_valid(t) && tab_bounded(t)
}

/// Total number of cards held by a sequence of columns.
pub open spec fn cols_total(cols: Seq<ColModel>) -> int
    decreases cols.len(),
{
    if cols.len() == 0 {
        0
    } else {
        cols_total(cols.drop_last()) + cols.last().cards.len()
    }
}

/// Total number of cards represented by the foundation counters.
pub open spec fn found_total(found: Seq<int>) -> int
    decreases found.len(),
{
    if found.len() == 0 {
        0
    } else {
        found_total(found.drop_last()) + found.last()
    }
}

/// Total number of cards in a position: stock, waste, columns, and the
/// cards the foundation counters stand for.
pub open spec fn tab_total(t: TabModel) -> int {
    t.stock.len() + t.waste.len() + cols_total(t.cols) + found_total(t.found)
}

/// A position is won when every foundation counter has reached 13.
pub open spec fn tab_is_win(t: TabModel) -> bool {
    forall|i: int| 0 <= i < t.found.len() ==> #[trigger] t.found[i] == 13
}

/// The first `n` ranks of suit `s`, from the Ace upward, as cards.
pub open spec fn suit_run(s: int, n: int) -> Seq<Card> {
    Seq::new(n as nat, |r: int| Card((s * 13 + r) as u8))
}

/// The cards a foundation sequence stands for, suit-major, rank-minor.
pub open spec fn found_flat(found: Seq<int>) -> Seq<Card>
    decreases found.len(),
{
    if found.len() == 0 {
        Seq::empty()
    } else {
        found_flat(found.drop_last()) + suit_run(found.len() - 1, found.last())
    }
}

/// Concatenation of all column contents, in storage order.
pub open spec fn cols_flat(cols: Seq<ColModel>) -> Seq<Card>
    decreases cols.len(),
{
    if cols.len() == 0 {
        Seq::empty()
    } else {
        cols_flat(cols.drop_last()) + cols.last().cards
    }
}

/// Canonical flattening of a position: columns in storage order, then
/// stock bottom-to-top, then waste bottom-to-top, then foundations.
pub open spec fn tab_flat(t: TabModel) -> Seq<Card> {
    cols_flat(t.cols) + t.stock + t.waste + found_flat(t.found)
}

proof fn lemma_cols_total_take(cols: Seq<ColModel>, i: int)
    requires
        0 <= i < cols.len(),
    ensures
        cols_total(cols.take(i + 1)) == cols_total(cols.take(i)) + cols[i].cards.len(),
{
    assert(cols.take(i + 1).drop_last() =~= cols.take(i));
    assert(cols.take(i + 1).last() == cols[i]);
}

proof fn lemma_found_total_take(found: Seq<int>, i: int)
    requires
        0 <= i < found.len(),
    ensures
        found_total(found.take(i + 1)) == found_total(found.take(i)) + found[i],
{
    assert(found.take(i + 1).drop_last() =~= found.take(i));
    assert(found.take(i + 1).last() == found[i]);
}

proof fn lemma_cols_flat_take(cols: Seq<ColModel>, i: int)
    requires
        0 <= i < cols.len(),
    ensures
        cols_flat(cols.take(i + 1)) == cols_flat(cols.take(i)) + cols[i].cards,
{
    assert(cols.take(i + 1).drop_last() =~= cols.take(i));
    assert(cols.take(i + 1).last() == cols[i]);
}

proof fn lemma_found_flat_take(found: Seq<int>, i: int)
    requires
        0 <= i < found.len(),
    ensures
        found_flat(found.take(i + 1)) == found_flat(found.take(i)) + suit_run(i, found[i]),
{
    assert(found.take(i + 1).drop_last() =~= found.take(i));
    assert(found.take(i + 1).last() == found[i]);
}

/// Replacing one column changes the column total by exactly the
/// difference in that column's length.
pub proof fn lemma_cols_total_update(cols: Seq<ColModel>, i: int, c: ColModel)
    requires
        0 <= i < cols.len(),
    ensures
        cols_total(cols.update(i, c)) == cols_total(cols) - cols[i].cards.len() + c.cards.len(),
    decreases cols.len(),
{
    let n = cols.len() as int;
    if i == n - 1 {
        assert(cols.update(i, c).drop_last() =~= cols.drop_last());
        assert(cols.update(i, c).last() == c);
    } else {
        assert(cols.update(i, c).drop_last() =~= cols.drop_last().update(i, c));
        assert(cols.update(i, c).last() == cols.last());
        lemma_cols_total_update(cols.drop_last(), i, c);
    }
}

/// Replacing one foundation counter changes the foundation total by
/// exactly the difference in that counter.
pub proof fn lemma_found_total_update(found: Seq<int>, i: int, v: int)
    requires
        0 <= i < found.len(),
    ensures
        found_total(found.update(i, v)) == found_total(found) - found[i] + v,
    decreases found.len(),
{
    let n = found.len() as int;
    if i == n - 1 {
        assert(found.update(i, v).drop_last() =~= found.drop_last());
        assert(found.update(i, v).last() == v);
    } else {
        assert(found.update(i, v).drop_last() =~= found.drop_last().update(i, v));
        assert(found.update(i, v).last() == found.last());
        lemma_found_total_update(found.drop_last(), i, v);
    }
}

/// The flattening of a position has exactly as many cards as the
/// position's total count.
pub proof fn lemma_tab_flat_len(t: TabModel)
    requires
        tab_shape(t),
    ensures
        tab_flat(t).len() == tab_total(t),
{
    lemma_cols_flat_len(t.cols);
    lemma_found_flat_len(t.found);
}

proof fn lemma_cols_flat_len(cols: Seq<ColModel>)
    ensures
        cols_flat(cols).len() == cols_total(cols),
    decreases cols.len(),
{
    if cols.len() > 0 {
        lemma_cols_flat_len(cols.drop_last());
    }
}

proof fn lemma_found_flat_len(found: Seq<int>)
    requires
        forall|i: int| 0 <= i < found.len() ==> 0 <= #[trigger] found[i],
    ensures
        found_flat(found).len() == found_total(found),
    decreases found.len(),
{
    if found.len() > 0 {
        lemma_found_flat_len(found.drop_last());
    }
}

/// The model of a completely empty tableau.
pub open spec fn empty_tab() -> TabModel {
    TabModel {
        stock: Seq::empty(),
        waste: Seq::empty(),
        cols: Seq::new(NUM_COLS as nat, |i: int| ColModel { cards: Seq::empty(), face_down: 0 }),
        found: Seq::new(NUM_FOUNDATIONS as nat, |i: int| 0),
    }
}

/// Deck position where face-down round `j` of the standard deal starts.
/// Round `j` deals `6 - j` cards right-to-left to columns 6 down to
/// `j + 1`, so the rounds start at 0, 6, 11, 15, 18 and 20.
pub open spec fn deal_round_start(j: int) -> int {
    if j == 0 {
        0
    } else if j == 1 {
        6
    } else if j == 2 {
        11
    } else if j == 3 {
        15
    } else if j == 4 {
        18
    } else {
        20
    }
}

/// Deck position of the `j`-th face-down card (counted from the column
/// bottom) of column `c` in the standard deal.
pub open spec fn deal_fd_idx(c: int, j: int) -> int {
    deal_round_start(j) + 6 - c
}

/// Model of column `c` after the standard deal: `c` face-down cards
/// from the face-down rounds, topped by one face-up card from the final
/// right-to-left round (deck positions 21..28, so column `c` gets 27 - c).
pub open spec fn deal_col(d: Seq<Card>, c: int) -> ColModel {
    ColModel {
        cards: Seq::new(
            (c + 1) as nat,
            |j: int|
                if j < c {
                    d[deal_fd_idx(c, j)]
                } else {
                    d[27 - c]
                },
        ),
        face_down: c,
    }
}

/// Model of the full standard deal: 28 cards into the columns, the
/// remaining 24 into the stock so that the next card drawn is the next
/// undealt card of the deck.
pub open spec fn spec_deal(d: Seq<Card>) -> TabModel {
    TabModel {
        stock: d.subrange(28, 52).reverse(),
        waste: Seq::empty(),
        cols: Seq::new(NUM_COLS as nat, |c: int| deal_col(d, c)),
        found: Seq::new(NUM_FOUNDATIONS as nat, |i: int| 0),
    }
}

/// Deck positions feeding the seven columns of the standard deal, in
/// flattening order: column 0 bottom-to-top, then column 1, and so on.
spec fn deal_src() -> Seq<int> {
    seq![
        27,
        5,
        26,
        4,
        10,
        25,
        3,
        9,
        14,
        24,
        2,
        8,
        13,
        17,
        23,
        1,
        7,
        12,
        16,
        19,
        22,
        0,
        6,
        11,
        15,
        18,
        20,
        21,
    ]
}

/// Mapping a sequence of distinct deck positions `0..n` over a deck
/// yields, as a multiset, exactly the deck's first `n` cards.
proof fn lemma_index_perm_multiset(d: Seq<Card>, src: Seq<int>)
    requires
        src.len() <= d.len(),
        forall|i: int| 0 <= i < src.len() ==> 0 <= #[trigger] src[i] < src.len(),
        src.no_duplicates(),
    ensures
        src.map_values(|k: int| d[k]).to_multiset() == d.take(src.len() as int).to_multiset(),
    decreases src.len(),
{
    broadcast use vstd::seq_lib::group_to_multiset_ensures;
    broadcast use vstd::multiset::group_multiset_axioms;

    let n = src.len() as int;
    let f = |k: int| d[k];
    if n == 0 {
        assert(src.map_values(f) =~= Seq::<Card>::empty());
        assert(d.take(0) =~= Seq::<Card>::empty());
        assert(src.map_values(f).to_multiset() =~= d.take(0).to_multiset());
    } else {
        if !src.contains(n - 1) {
            src.unique_seq_to_set();
            assert forall|v: int| src.to_set().contains(v) implies vstd::set_lib::set_int_range(
                0,
                n - 1,
            ).contains(v) by {
                let i = choose|i: int| 0 <= i < src.len() && src[i] == v;
                assert(src[i] != n - 1);
            }
            vstd::set_lib::lemma_int_range(0, n - 1);
            vstd::set_lib::lemma_len_subset(
                src.to_set(),
                vstd::set_lib::set_int_range(0, n - 1),
            );
            assert(false);
        }
        let p = choose|p: int| 0 <= p < n && src[p] == n - 1;
        let src2 = src.remove(p);
        assert forall|i: int| 0 <= i < src2.len() implies 0 <= #[trigger] src2[i] < src2.len() by {
            if i < p {
                assert(src2[i] == src[i]);
                assert(src[i] != src[p]);
            } else {
                assert(src2[i] == src[i + 1]);
                assert(src[i + 1] != src[p]);
            }
        }
        assert(src2.no_duplicates()) by {
            assert forall|i: int, j: int|
                0 <= i < src2.len() && 0 <= j < src2.len() && i != j implies src2[i] != src2[j] by {
                let i0 = if i < p {
                    i
                } else {
                    i + 1
                };
                let j0 = if j < p {
                    j
                } else {
                    j + 1
                };
                assert(src2[i] == src[i0] && src2[j] == src[j0]);
            }
        }
        lemma_index_perm_multiset(d, src2);
        assert(src.map_values(f).remove(p) =~= src2.map_values(f));
        assert(src.map_values(f).remove(p).to_multiset() == src.map_values(f).to_multiset().remove(
            f(src[p]),
        ));
        assert(src.map_values(f)[p] == d[n - 1]);
        assert(src.map_values(f).contains(d[n - 1]));
        assert(src.map_values(f).to_multiset().count(d[n - 1]) > 0);
        assert(d.take(n) =~= d.take(n - 1).push(d[n - 1]));
        assert(d.take(n - 1).push(d[n - 1]).to_multiset() =~= d.take(n - 1).to_multiset().insert(
            d[n - 1],
        ));
        assert(src.map_values(f).to_multiset() =~= src.map_values(f).to_multiset().remove(
            d[n - 1],
        ).insert(d[n - 1]));
        assert(src.map_values(f).to_multiset() =~= d.take(n).to_multiset());
    }
}

/// Law: dealing conserves the deck. For any 52-card deck, flattening
/// the dealt position gives back exactly the same multiset of cards,
/// and the dealt position accounts for exactly 52 cards.
pub proof fn lemma_deal_conservation(d: Seq<Card>)
    requires
        d.len() == 52,
    ensures
        tab_flat(spec_deal(d)).to_multiset() == d.to_multiset(),
        tab_total(spec_deal(d)) == 52,
{
    broadcast use vstd::seq_lib::group_to_multiset_ensures;
    broadcast use vstd::multiset::group_multiset_axioms;

    let t = spec_deal(d);
    let f = |k: int| d[k];

    // The foundation part of the flattening is empty.
    let f4 = t.found;
    let f3 = f4.drop_last();
    let f2 = f3.drop_last();
    let f1 = f2.drop_last();
    let f0 = f1.drop_last();
    assert(found_flat(f0) =~= Seq::<Card>::empty());
    assert(suit_run(0, f1.last()) =~= Seq::<Card>::empty());
    assert(found_flat(f1) =~= Seq::<Card>::empty());
    assert(suit_run(1, f2.last()) =~= Seq::<Card>::empty());
    assert(found_flat(f2) =~= Seq::<Card>::empty());
    assert(suit_run(2, f3.last()) =~= Seq::<Card>::empty());
    assert(found_flat(f3) =~= Seq::<Card>::empty());
    assert(suit_run(3, f4.last()) =~= Seq::<Card>::empty());
    assert(found_flat(t.found) =~= Seq::<Card>::empty());

    // The column part of the flattening reads the first 28 deck
    // positions, each exactly once.
    let c6 = t.cols;
    let c5 = c6.drop_last();
    let c4 = c5.drop_last();
    let c3 = c4.drop_last();
    let c2 = c3.drop_last();
    let c1 = c2.drop_last();
    let c0 = c1.drop_last();
    assert(c0.len() == 1 && c0.last() == deal_col(d, 0));
    assert(c1.last() == deal_col(d, 1));
    assert(c2.last() == deal_col(d, 2));
    assert(c3.last() == deal_col(d, 3));
    assert(c4.last() == deal_col(d, 4));
    assert(c5.last() == deal_col(d, 5));
    assert(c6.last() == deal_col(d, 6));
    assert(deal_col(d, 0).cards =~= seq![d[27]]);
    assert(deal_col(d, 1).cards =~= seq![d[5], d[26]]);
    assert(deal_col(d, 2).cards =~= seq![d[4], d[10], d[25]]);
    assert(deal_col(d, 3).cards =~= seq![d[3], d[9], d[14], d[24]]);
    assert(deal_col(d, 4).cards =~= seq![d[2], d[8], d[13], d[17], d[23]]);
    assert(deal_col(d, 5).cards =~= seq![d[1], d[7], d[12], d[16], d[19], d[22]]);
    assert(deal_col(d, 6).cards =~= seq![d[0], d[6], d[11], d[15], d[18], d[20], d[21]]);
    assert(cols_flat(c0.drop_last()) =~= Seq::<Card>::empty());
    assert(cols_flat(c0) =~= seq![d[27]]);
    assert(cols_flat(c1) =~= seq![d[27], d[5], d[26]]);
    assert(cols_flat(c2) =~= seq![d[27], d[5], d[26], d[4], d[10], d[25]]);
    assert(cols_flat(c3) =~= seq![d[27], d[5], d[26], d[4], d[10], d[25], d[3], d[9], d[14], d[24]]);
    assert(cols_flat(c4) =~= seq![
        d[27],
        d[5],
        d[26],
        d[4],
        d[10],
        d[25],
        d[3],
        d[9],
        d[14],
        d[24],
        d[2],
        d[8],
        d[13],
        d[17],
        d[23],
    ]);
    assert(cols_flat(c5) =~= seq![
        d[27],
        d[5],
        d[26],
        d[4],
        d[10],
        d[25],
        d[3],
        d[9],
        d[14],
        d[24],
        d[2],
        d[8],
        d[13],
        d[17],
        d[23],
        d[1],
        d[7],
        d[12],
        d[16],
        d[19],
        d[22],
    ]);
    assert(cols_flat(c6) =~= seq![
        d[27],
        d[5],
        d[26],
        d[4],
        d[10],
        d[25],
        d[3],
        d[9],
        d[14],
        d[24],
        d[2],
        d[8],
        d[13],
        d[17],
        d[23],
        d[1],
        d[7],
        d[12],
        d[16],
        d[19],
        d[22],
        d[0],
        d[6],
        d[11],
        d[15],
        d[18],
        d[20],
        d[21],
    ]);
    assert(cols_flat(t.cols) =~= deal_src().map_values(f));

    // Those 28 positions are distinct and cover 0..28.
    assert(deal_src().len() == 28);
    assert(deal_src().no_duplicates());
    assert(forall|i: int| 0 <= i < 28 ==> 0 <= #[trigger] deal_src()[i] < 28);
    lemma_index_perm_multiset(d, deal_src());
    assert(cols_flat(t.cols).to_multiset() == d.take(28).to_multiset());

    // The stock is the remaining 24 positions, reversed.
    assert(t.stock.to_multiset() == d.subrange(28, 52).to_multiset()) by {
        d.subrange(28, 52).lemma_reverse_to_multiset();
    }

    // Assemble the pieces.
    assert(tab_flat(t) =~= cols_flat(t.cols) + t.stock);
    vstd::seq_lib::lemma_multiset_commutative(cols_flat(t.cols), t.stock);
    assert(d =~= d.take(28) + d.subrange(28, 52));
    vstd::seq_lib::lemma_multiset_commutative(d.take(28), d.subrange(28, 52));
    assert(tab_flat(t).to_multiset() =~= d.to_multiset());

    // The total card count matches the flattening's length.
    assert(tab_shape(t));
    lemma_tab_flat_len(t);
    vstd::seq_lib::to_multiset_len(tab_flat(t));
    vstd::seq_lib::to_multiset_len(d);
}

/// Full tableau state for a Klondike game.
#[derive(Debug)]
pub struct Tableau {
    /// Stock pile (face-down draw pile).
    pub stock: Pile,
    /// Waste pile (face-up).
    pub waste: Pile,
    /// Seven tableau columns.
    pub columns: Vec<Column>,
    /// Foundations (one per suit), stored as rank counts:
    /// 0 = empty, 1 = Ace placed, ..., 13 = King placed.
    pub foundations: Vec<u8>,
}

impl View for Tableau {
    type V = TabModel;

    open spec fn view(&self) -> TabModel {
        TabModel {
            stock: self.stock@,
            waste: self.waste@,
            cols: self.columns@.map_values(|c: Column| c@),
            found: self.foundations@.map_values(|f: u8| f as int),
        }
    }
}

impl Clone for Tableau {
    fn clone(&self) -> (res: Self)
        ensures
            res@ == self@,
    {
        let mut columns: Vec<Column> = Vec::new();
        let mut i: usize = 0;
        while i < self.columns.len()
            invariant
                i <= self.columns@.len(),
                columns@.len() == i,
                forall|k: int| 0 <= k < i ==> #[trigger] columns@[k]@ == self.columns@[k]@,
            decreases self.columns@.len() - i,
        {
            columns.push(self.columns[i].clone());
            i = i + 1;
        }
        let res = Tableau {
            stock: self.stock.clone(),
            waste: self.waste.clone(),
            columns,
            foundations: self.foundations.clone(),
        };
        proof {
            assert(res@.cols =~= self@.cols);
            assert(res@.found =~= self@.found);
            assert(res@ =~= self@);
        }
        res
    }
}

impl Tableau {
    /// Create an entirely empty tableau (no cards anywhere).
    pub fn new_empty() -> (t: Tableau)
        ensures
            t@ == empty_tab(),
            tab_wf(t@),
    {
        let mut columns: Vec<Column> = Vec::new();
        let mut i: usize = 0;
        while i < NUM_COLS
            invariant
                i <= NUM_COLS,
                columns@.len() == i,
                forall|k: int|
                    0 <= k < i ==> #[trigger] columns@[k]@ == (ColModel {
                        cards: Seq::<Card>::empty(),
                        face_down: 0,
                    }),
            decreases NUM_COLS - i,
        {
            columns.push(Column::new());
            i = i + 1;
        }
        let mut foundations: Vec<u8> = Vec::new();
        let mut j: usize = 0;
        while j < NUM_FOUNDATIONS
            invariant
                j <= NUM_FOUNDATIONS,
                foundations@.len() == j,
                forall|k: int| 0 <= k < j ==> #[trigger] foundations@[k] == 0,
            decreases NUM_FOUNDATIONS - j,
        {
            foundations.push(0);
            j = j + 1;
        }
        let t = Tableau { stock: Pile::new(), waste: Pile::new(), columns, foundations };
        proof {
            assert(t@.cols =~= empty_tab().cols);
            assert(t@.found =~= empty_tab().found);
            assert(t@ =~= empty_tab());
        }
        t
    }

    /// True if all foundations have reached the King, i.e. all 52 cards
    /// are up.
    pub fn is_win(&self) -> (r: bool)
        requires
            self@.found.len() == NUM_FOUNDATIONS,
        ensures
            r == tab_is_win(self@),
    {
        let mut i: usize = 0;
        while i < NUM_FOUNDATIONS
            invariant
                i <= NUM_FOUNDATIONS,
                self@.found.len() == NUM_FOUNDATIONS,
                forall|k: int| 0 <= k < i ==> #[trigger] self@.found[k] == 13,
            decreases NUM_FOUNDATIONS - i,
        {
            if self.foundations[i] != 13 {
                proof {
                    assert(self@.found[i as int] != 13);
                }
                return false;
            }
            i = i + 1;
        }
        true
    }

    /// Total number of cards in stock + waste + columns + foundations.
    /// Used for consistency checks; a well-formed full deal always
    /// totals 52.
    pub fn total_cards(&self) -> (r: u8)
        requires
            tab_shape(self@),
            tab_bounded(self@),
        ensures
            r == tab_total(self@),
    {
        let mut sum: u16 = 0;
        sum = sum + self.stock.len() as u16;
        sum = sum + self.waste.len() as u16;

        let mut c: usize = 0;
        while c < self.columns.len()
            invariant
                c <= self@.cols.len(),
                tab_shape(self@),
                tab_bounded(self@),
                self@.cols.len() == self.columns@.len(),
                sum == self@.stock.len() + self@.waste.len() + cols_total(self@.cols.take(c as int)),
                sum <= 48 + 19 * c,
            decreases self@.cols.len() - c,
        {
            proof {
                lemma_cols_total_take(self@.cols, c as int);
            }
            sum = sum + self.columns[c].len() as u16;
            c = c + 1;
        }
        proof {
            assert(self@.cols.take(self@.cols.len() as int) =~= self@.cols);
        }

        let mut f: usize = 0;
        while f < self.foundations.len()
            invariant
                f <= self@.found.len(),
                tab_shape(self@),
                self@.found.len() == self.foundations@.len(),
                sum == self@.stock.len() + self@.waste.len() + cols_total(self@.cols) + found_total(
                    self@.found.take(f as int),
                ),
                sum <= 181 + 13 * f,
            decreases self@.found.len() - f,
        {
            proof {
                lemma_found_total_take(self@.found, f as int);
            }
            sum = sum + self.foundations[f] as u16;
            f = f + 1;
        }
        proof {
            assert(self@.found.take(self@.found.len() as int) =~= self@.found);
        }
        sum as u8
    }

    /// Flatten this tableau into its canonical card sequence: columns in
    /// storage order, then stock, then waste, then foundations
    /// suit-major / rank-minor.
    pub fn flatten_cards(&self) -> (out: Vec<Card>)
        requires
            tab_shape(self@),
        ensures
            out@ == tab_flat(self@),
    {
        let mut out: Vec<Card> = Vec::new();

        // 1) Columns, each in storage order (bottom to top).
        let mut c: usize = 0;
        while c < self.columns.len()
            invariant
                c <= self@.cols.len(),
                self@.cols.len() == self.columns@.len(),
                out@ == cols_flat(self@.cols.take(c as int)),
            decreases self@.cols.len() - c,
        {
            let col = &self.columns[c];
            let mut j: usize = 0;
            while j < col.cards.len()
                invariant
                    j <= col@.cards.len(),
                    col@ == self@.cols[c as int],
                    c < self@.cols.len(),
                    self@.cols.len() == self.columns@.len(),
                    out@ == cols_flat(self@.cols.take(c as int)) + col@.cards.take(j as int),
                decreases col@.cards.len() - j,
            {
                out.push(col.cards[j]);
                proof {
                    assert(col@.cards.take(j + 1) =~= col@.cards.take(j as int).push(
                        col@.cards[j as int],
                    ));
                }
                j = j + 1;
            }
            proof {
                lemma_cols_flat_take(self@.cols, c as int);
                assert(col@.cards.take(col@.cards.len() as int) =~= col@.cards);
            }
            c = c + 1;
        }
        proof {
            assert(self@.cols.take(self@.cols.len() as int) =~= self@.cols);
        }

        // 2) Stock, bottom to top.
        let mut i: usize = 0;
        while i < self.stock.cards.len()
            invariant
                i <= self@.stock.len(),
                self@.stock.len() == self.stock.cards@.len(),
                out@ == cols_flat(self@.cols) + self@.stock.take(i as int),
            decreases self@.stock.len() - i,
        {
            out.push(self.stock.cards[i]);
            proof {
                assert(self@.stock.take(i + 1) =~= self@.stock.take(i as int).push(
                    self@.stock[i as int],
                ));
            }
            i = i + 1;
        }
        proof {
            assert(self@.stock.take(self@.stock.len() as int) =~= self@.stock);
        }

        // 3) Waste, bottom to top.
        let mut i: usize = 0;
        while i < self.waste.cards.len()
            invariant
                i <= self@.waste.len(),
                self@.waste.len() == self.waste.cards@.len(),
                out@ == cols_flat(self@.cols) + self@.stock + self@.waste.take(i as int),
            decreases self@.waste.len() - i,
        {
            out.push(self.waste.cards[i]);
            proof {
                assert(self@.waste.take(i + 1) =~= self@.waste.take(i as int).push(
                    self@.waste[i as int],
                ));
            }
            i = i + 1;
        }
        proof {
            assert(self@.waste.take(self@.waste.len() as int) =~= self@.waste);
        }

        // 4) Foundations: suit-major, rank-minor.
        let mut s: usize = 0;
        while s < self.foundations.len()
            invariant
                s <= self@.found.len(),
                tab_shape(self@),
                self@.found.len() == self.foundations@.len(),
                out@ == cols_flat(self@.cols) + self@.stock + self@.waste + found_flat(
                    self@.found.take(s as int),
                ),
            decreases self@.found.len() - s,
        {
            let count = self.foundations[s];
            let mut r: u8 = 0;
            while r < count
                invariant
                    r <= count,
                    s < self@.found.len(),
                    tab_shape(self@),
                    self@.found.len() == self.foundations@.len(),
                    count == self@.found[s as int],
                    out@ == cols_flat(self@.cols) + self@.stock + self@.waste + found_flat(
                        self@.found.take(s as int),
                    ) + suit_run(s as int, r as int),
                decreases count - r,
            {
                out.push(Card((s as u8) * 13 + r));
                proof {
                    assert(suit_run(s as int, r + 1) =~= suit_run(s as int, r as int).push(
                        Card(((s as int) * 13 + r) as u8),
                    ));
                }
                r = r + 1;
            }
            proof {
                lemma_found_flat_take(self@.found, s as int);
            }
            s = s + 1;
        }
        proof {
            assert(self@.found.take(self@.found.len() as int) =~= self@.found);
            assert(out@ =~= tab_flat(self@));
        }
        out
    }

    /// Deal a standard Klondike opening layout from a dealing-order deck:
    /// `deck[0]` is the first card dealt. Six face-down rounds fill the
    /// columns right-to-left in a triangular pattern, one face-up round
    /// tops every column, and the remaining 24 cards become the stock
    /// with `deck[28]` as the next card to draw.
    pub fn deal_from_shuffled(deck: &Vec<Card>) -> (t: Tableau)
        requires
            deck@.len() == CARDS_PER_DECK,
            forall|i: int| 0 <= i < deck@.len() ==> card_valid(#[trigger] deck@[i]),
        ensures
            t@ == spec_deal(deck@),
            tab_wf(t@),
    {
        let mut columns: Vec<Column> = Vec::new();
        let mut c: usize = 0;
        while c < NUM_COLS
            invariant
                c <= NUM_COLS,
                deck@.len() == CARDS_PER_DECK,
                forall|i: int| 0 <= i < deck@.len() ==> card_valid(#[trigger] deck@[i]),
                columns@.len() == c,
                forall|k: int| 0 <= k < c ==> #[trigger] columns@[k]@ == deal_col(deck@, k),
            decreases NUM_COLS - c,
        {
            let mut col = Column::new();
            let mut j: usize = 0;
            while j < c
                invariant
                    j <= c,
                    c < NUM_COLS,
                    deck@.len() == CARDS_PER_DECK,
                    forall|i: int| 0 <= i < deck@.len() ==> card_valid(#[trigger] deck@[i]),
                    col@.cards.len() == j,
                    col@.face_down == j,
                    forall|k: int|
                        0 <= k < j ==> #[trigger] col@.cards[k] == deck@[deal_fd_idx(
                            c as int,
                            k,
                        )],
                decreases c - j,
            {
                let start: usize = if j == 0 {
                    0
                } else if j == 1 {
                    6
                } else if j == 2 {
                    11
                } else if j == 3 {
                    15
                } else if j == 4 {
                    18
                } else {
                    20
                };
                let idx: usize = start + 6 - c;
                col.push(deck[idx], true);
                j = j + 1;
            }
            col.push(deck[27 - c], false);
            proof {
                assert(col@.cards =~= deal_col(deck@, c as int).cards);
                assert(col@ =~= deal_col(deck@, c as int));
            }
            columns.push(col);
            c = c + 1;
        }

        let mut stock = Pile::new();
        let mut i: usize = 0;
        while i < MAX_STOCK
            invariant
                i <= MAX_STOCK,
                deck@.len() == CARDS_PER_DECK,
                stock@.len() == i,
                forall|k: int| 0 <= k < i ==> #[trigger] stock@[k] == deck@[51 - k],
            decreases MAX_STOCK - i,
        {
            stock.push(deck[51 - i]);
            i = i + 1;
        }

        let mut foundations: Vec<u8> = Vec::new();
        let mut f: usize = 0;
        while f < NUM_FOUNDATIONS
            invariant
                f <= NUM_FOUNDATIONS,
                foundations@.len() == f,
                forall|k: int| 0 <= k < f ==> #[trigger] foundations@[k] == 0,
            decreases NUM_FOUNDATIONS - f,
        {
            foundations.push(0);
            f = f + 1;
        }

        let t = Tableau { stock, waste: Pile::new(), columns, foundations };
        proof {
            assert(t@.stock =~= deck@.subrange(28, 52).reverse());
            assert(t@.cols =~= spec_deal(deck@).cols);
            assert(t@.found =~= spec_deal(deck@).found);
            assert(t@ =~= spec_deal(deck@));
            assert forall|ci: int, k: int|
                0 <= ci < t@.cols.len() && 0 <= k < t@.cols[ci].cards.len() implies card_valid(
                #[trigger] t@.cols[ci].cards[k],
            ) by {
                assert(t@.cols[ci] == deal_col(deck@, ci));
            }
        }
        t
    }
}

} // verus!
