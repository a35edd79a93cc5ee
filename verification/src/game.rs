//! Game-level state: initial deck, move stack, cached position, and a
//! 64-bit fingerprint of the position for loop detection.
//!
//! A `GameState` couples a deal with the moves applied so far. Its
//! well-formedness invariant says the cached tableau *is* the replay
//! of those moves from the deal, and the cached hash *is* the
//! fingerprint of that tableau — so the cache can never drift from
//! the history.

use crate::card::{card_valid, Card, CARDS_PER_DECK};
use crate::moves::{
    lemma_apply_preserves_good, lemma_deal_good, spec_apply, spec_move_legal, tab_good, Move,
};
use crate::tableau::{spec_deal, tab_bounded, tab_shape, ColModel, TabModel, Tableau};
use vstd::prelude::*;

verus! {

/// Why a search over this game stopped.
#[derive(Copy, Clone, Debug, Eq, PartialEq, Structural)]
pub enum TerminationReason {
    /// All cards reached the foundations in some branch.
    Win,
    /// The search stack emptied without a win and without a single
    /// depth cutoff: every branch dead-ended or looped into an
    /// already-seen fingerprint, so the search was exhaustive up to
    /// fingerprints.
    LossNoMoreMoves,
    /// The configured node budget was reached.
    MaxNodesReached,
    /// The stack emptied without a win, but at least one branch was
    /// cut off at the depth budget, so the search says nothing about
    /// deeper lines.
    MaxDepthReached,
    /// The final remaining branch could only reach already-visited
    /// positions. Reported as `LossNoMoreMoves` by this solver, which
    /// does not track the distinction separately.
    LoopOnLastBranch,
}

/// 64-bit FNV-1a offset basis.
pub const FNV_OFFSET_BASIS: u64 = 0xcbf29ce484222325;
/// 64-bit FNV-1a prime.
pub const FNV_PRIME: u64 = 0x0000_0100_0000_01B3;

/// One FNV-1a step: xor the byte in, multiply by the prime mod 2^64.
pub open spec fn fnv_mix(h: u64, b: u8) -> u64 {
    vstd::wrapping::u64_specs::wrapping_mul(h ^ (b as u64), FNV_PRIME)
}

/// Folding FNV-1a over a byte sequence, left to right.
pub open spec fn fnv_mix_seq(h: u64, bytes: Seq<u8>) -> u64
    decreases bytes.len(),
{
    if bytes.len() == 0 {
        h
    } else {
        fnv_mix(fnv_mix_seq(h, bytes.drop_last()), bytes.last())
    }
}

/// The bytes one column contributes to the fingerprint: its length,
/// its face-down count, then every card bottom to top (hidden cards
/// are part of a position's identity).
pub open spec fn col_bytes(c: ColModel) -> Seq<u8> {
    seq![c.cards.len() as u8, c.face_down as u8] + c.cards.map_values(|x: Card| x.0)
}

/// The bytes all columns contribute, in storage order.
pub open spec fn cols_bytes(cols: Seq<ColModel>) -> Seq<u8>
    decreases cols.len(),
{
    if cols.len() == 0 {
        Seq::empty()
    } else {
        cols_bytes(cols.drop_last()) + col_bytes(cols.last())
    }
}

/// The full byte stream the fingerprint hashes, with domain-separator
/// tags between sections: foundations, stock top-to-bottom, waste
/// top-to-bottom, then every column.
pub open spec fn spec_hash_bytes(t: TabModel) -> Seq<u8> {
    seq![0xF0u8] + t.found.map_values(|f: int| f as u8) + seq![83u8] + t.stock.reverse()
        .map_values(|x: Card| x.0) + seq![87u8] + t.waste.reverse().map_values(|x: Card| x.0)
        + seq![0xC0u8] + cols_bytes(t.cols)
}

/// The 64-bit fingerprint of a position.
pub open spec fn spec_hash(t: TabModel) -> u64 {
    fnv_mix_seq(FNV_OFFSET_BASIS, spec_hash_bytes(t))
}

/// Mix a single byte into an FNV-1a hash.
fn fnv1a_mix_byte(h: u64, byte: u8) -> (r: u64)
    ensures
        r == fnv_mix(h, byte),
{
    (h ^ (byte as u64)).wrapping_mul(FNV_PRIME)
}

/// Mix a small domain-separator tag into an FNV-1a hash.
fn fnv1a_mix_tag(h: u64, tag: u8) -> (r: u64)
    ensures
        r == fnv_mix(h, tag),
{
    fnv1a_mix_byte(h, tag)
}

/// Law (fingerprint determinism): the fingerprint is a function of
/// the position value alone — equal positions always hash equal.
pub proof fn lemma_hash_deterministic(t1: TabModel, t2: TabModel)
    requires
        t1 == t2,
    ensures
        spec_hash(t1) == spec_hash(t2),
{
}

proof fn lemma_fnv_push(h: u64, bytes: Seq<u8>, b: u8)
    ensures
        fnv_mix_seq(h, bytes.push(b)) == fnv_mix(fnv_mix_seq(h, bytes), b),
{
    assert(bytes.push(b).drop_last() =~= bytes);
    assert(bytes.push(b).last() == b);
}

/// Compute the 64-bit fingerprint of a full tableau state: all four
/// foundation counters, the exact stock and waste contents in order,
/// and every column's structure and cards, hidden ones included.
pub fn hash_tableau64(tab: &Tableau) -> (r: u64)
    requires
        tab_shape(tab@),
        tab_bounded(tab@),
    ensures
        r == spec_hash(tab@),
{
    let ghost t = tab@;
    let mut h: u64 = FNV_OFFSET_BASIS;
    let ghost mut done: Seq<u8> = Seq::empty();

    // --- Foundations ---
    h = fnv1a_mix_tag(h, 0xF0);
    proof {
        lemma_fnv_push(FNV_OFFSET_BASIS, done, 0xF0u8);
        done = done.push(0xF0u8);
    }
    let mut f: usize = 0;
    while f < tab.foundations.len()
        invariant
            f <= t.found.len(),
            t == tab@,
            tab_shape(t),
            tab_bounded(t),
            done == seq![0xF0u8] + t.found.map_values(|x: int| x as u8).take(f as int),
            h == fnv_mix_seq(FNV_OFFSET_BASIS, done),
        decreases t.found.len() - f,
    {
        let b = tab.foundations[f];
        proof {
            lemma_fnv_push(FNV_OFFSET_BASIS, done, b);
            done = done.push(b);
            assert(done =~= seq![0xF0u8] + t.found.map_values(|x: int| x as u8).take(f + 1));
        }
        h = fnv1a_mix_byte(h, b);
        f = f + 1;
    }
    proof {
        assert(t.found.map_values(|x: int| x as u8).take(t.found.len() as int) =~= t.found
            .map_values(|x: int| x as u8));
    }

    // --- Stock, top to bottom ---
    h = fnv1a_mix_tag(h, 83);
    proof {
        lemma_fnv_push(FNV_OFFSET_BASIS, done, 83u8);
        done = done.push(83u8);
    }
    let ghost base = done;
    let stock_len = tab.stock.cards.len();
    let mut i: usize = 0;
    while i < stock_len
        invariant
            i <= stock_len,
            t == tab@,
            tab_shape(t),
            tab_bounded(t),
            stock_len == t.stock.len(),
            done == base + t.stock.reverse().map_values(|x: Card| x.0).take(i as int),
            h == fnv_mix_seq(FNV_OFFSET_BASIS, done),
        decreases stock_len - i,
    {
        let b = tab.stock.cards[stock_len - 1 - i].0;
        proof {
            lemma_fnv_push(FNV_OFFSET_BASIS, done, b);
            done = done.push(b);
            assert(done =~= base + t.stock.reverse().map_values(|x: Card| x.0).take(i + 1));
        }
        h = fnv1a_mix_byte(h, b);
        i = i + 1;
    }
    proof {
        assert(t.stock.reverse().map_values(|x: Card| x.0).take(t.stock.len() as int)
            =~= t.stock.reverse().map_values(|x: Card| x.0));
    }

    // --- Waste, top to bottom ---
    h = fnv1a_mix_tag(h, 87);
    proof {
        lemma_fnv_push(FNV_OFFSET_BASIS, done, 87u8);
        done = done.push(87u8);
    }
    let ghost base2 = done;
    let waste_len = tab.waste.cards.len();
    let mut i: usize = 0;
    while i < waste_len
        invariant
            i <= waste_len,
            t == tab@,
            tab_shape(t),
            tab_bounded(t),
            waste_len == t.waste.len(),
            done == base2 + t.waste.reverse().map_values(|x: Card| x.0).take(i as int),
            h == fnv_mix_seq(FNV_OFFSET_BASIS, done),
        decreases waste_len - i,
    {
        let b = tab.waste.cards[waste_len - 1 - i].0;
        proof {
            lemma_fnv_push(FNV_OFFSET_BASIS, done, b);
            done = done.push(b);
            assert(done =~= base2 + t.waste.reverse().map_values(|x: Card| x.0).take(i + 1));
        }
        h = fnv1a_mix_byte(h, b);
        i = i + 1;
    }
    proof {
        assert(t.waste.reverse().map_values(|x: Card| x.0).take(t.waste.len() as int)
            =~= t.waste.reverse().map_values(|x: Card| x.0));
    }

    // --- Columns: structure plus every card, hidden ones included ---
    h = fnv1a_mix_tag(h, 0xC0);
    proof {
        lemma_fnv_push(FNV_OFFSET_BASIS, done, 0xC0u8);
        done = done.push(0xC0u8);
    }
    let ghost base3 = done;
    let mut c: usize = 0;
    while c < tab.columns.len()
        invariant
            c <= t.cols.len(),
            t == tab@,
            tab_shape(t),
            tab_bounded(t),
            t.cols.len() == tab.columns@.len(),
            done == base3 + cols_bytes(t.cols.take(c as int)),
            h == fnv_mix_seq(FNV_OFFSET_BASIS, done),
        decreases t.cols.len() - c,
    {
        let col = &tab.columns[c];
        let len_b = col.cards.len() as u8;
        proof {
            lemma_fnv_push(FNV_OFFSET_BASIS, done, len_b);
            done = done.push(len_b);
        }
        h = fnv1a_mix_byte(h, len_b);
        let fd_b = col.num_face_down as u8;
        proof {
            lemma_fnv_push(FNV_OFFSET_BASIS, done, fd_b);
            done = done.push(fd_b);
        }
        h = fnv1a_mix_byte(h, fd_b);
        let mut j: usize = 0;
        while j < col.cards.len()
            invariant
                j <= col@.cards.len(),
                col@ == t.cols[c as int],
                c < t.cols.len(),
                t == tab@,
                done == base3 + cols_bytes(t.cols.take(c as int)) + seq![
                    col@.cards.len() as u8,
                    col@.face_down as u8,
                ] + col@.cards.map_values(|x: Card| x.0).take(j as int),
                h == fnv_mix_seq(FNV_OFFSET_BASIS, done),
            decreases col@.cards.len() - j,
        {
            let b = col.cards[j].0;
            proof {
                lemma_fnv_push(FNV_OFFSET_BASIS, done, b);
                done = done.push(b);
                assert(done =~= base3 + cols_bytes(t.cols.take(c as int)) + seq![
                    col@.cards.len() as u8,
                    col@.face_down as u8,
                ] + col@.cards.map_values(|x: Card| x.0).take(j + 1));
            }
            h = fnv1a_mix_byte(h, b);
            j = j + 1;
        }
        proof {
            assert(col@.cards.map_values(|x: Card| x.0).take(col@.cards.len() as int) =~= col@
                .cards.map_values(|x: Card| x.0));
            assert(t.cols.take(c + 1).drop_last() =~= t.cols.take(c as int));
            assert(t.cols.take(c + 1).last() == t.cols[c as int]);
            assert(done =~= base3 + cols_bytes(t.cols.take(c + 1)));
        }
        c = c + 1;
    }
    proof {
        assert(t.cols.take(t.cols.len() as int) =~= t.cols);
        assert(done =~= spec_hash_bytes(t));
    }
    h
}

/// Replaying a move sequence from a starting position, in order.
pub open spec fn spec_replay(t0: TabModel, moves: Seq<Move>) -> TabModel
    decreases moves.len(),
{
    if moves.len() == 0 {
        t0
    } else {
        spec_apply(spec_replay(t0, moves.drop_last()), moves.last().kind)
    }
}

/// A move sequence is a legal line from a starting position when each
/// move is legal in the position reached by its predecessors.
pub open spec fn legal_line(t0: TabModel, moves: Seq<Move>) -> bool
    decreases moves.len(),
{
    if moves.len() == 0 {
        true
    } else {
        &&& legal_line(t0, moves.drop_last())
        &&& spec_move_legal(spec_replay(t0, moves.drop_last()), moves.last().kind)
    }
}

/// Replaying a legal line from a good position yields a good position.
pub proof fn lemma_replay_good(t0: TabModel, moves: Seq<Move>)
    requires
        tab_good(t0),
        legal_line(t0, moves),
    ensures
        tab_good(spec_replay(t0, moves)),
    decreases moves.len(),
{
    if moves.len() > 0 {
        lemma_replay_good(t0, moves.drop_last());
        lemma_apply_preserves_good(spec_replay(t0, moves.drop_last()), moves.last().kind);
    }
}

/// Every prefix of a legal line is a legal line, and each move is
/// legal in the position its prefix reaches.
pub proof fn lemma_legal_line_index(t0: TabModel, moves: Seq<Move>, i: int)
    requires
        legal_line(t0, moves),
        0 <= i < moves.len(),
    ensures
        legal_line(t0, moves.take(i)),
        spec_move_legal(spec_replay(t0, moves.take(i)), moves[i].kind),
        spec_replay(t0, moves.take(i + 1)) == spec_apply(
            spec_replay(t0, moves.take(i)),
            moves[i].kind,
        ),
    decreases moves.len(),
{
    if i == moves.len() - 1 {
        assert(moves.take(i) =~= moves.drop_last());
        assert(moves.take(i + 1) =~= moves);
    } else {
        lemma_legal_line_index(t0, moves.drop_last(), i);
        assert(moves.drop_last().take(i) =~= moves.take(i));
        assert(moves.drop_last().take(i + 1) =~= moves.take(i + 1));
    }
}

/// Extending a legal line by one legal move keeps it a legal line.
pub proof fn lemma_legal_line_push(t0: TabModel, moves: Seq<Move>, mv: Move)
    requires
        legal_line(t0, moves),
        spec_move_legal(spec_replay(t0, moves), mv.kind),
    ensures
        legal_line(t0, moves.push(mv)),
        spec_replay(t0, moves.push(mv)) == spec_apply(spec_replay(t0, moves), mv.kind),
{
    assert(moves.push(mv).drop_last() =~= moves);
    assert(moves.push(mv).last() == mv);
}

/// Complete description of a single game's state at a point in time:
/// the deal, the moves applied so far, and the cached current tableau
/// and fingerprint derived from them.
#[derive(Debug)]
pub struct GameState {
    /// The exact initial deck permutation used for this game.
    pub initial_deck: Vec<Card>,
    /// The current tableau: the deal replayed through `moves`.
    pub tableau: Tableau,
    /// The sequence of moves applied since the deal.
    pub moves: Vec<Move>,
    /// 64-bit fingerprint of the current tableau.
    pub tableau_hash: u64,
    /// Why a search ending at this state stopped, if it is a search
    /// endpoint; `None` for interior states.
    pub termination_reason: Option<TerminationReason>,
}

impl Clone for GameState {
    fn clone(&self) -> (res: Self)
        ensures
            res.initial_deck@ == self.initial_deck@,
            res.tableau@ == self.tableau@,
            res.moves@ == self.moves@,
            res.tableau_hash == self.tableau_hash,
            res.termination_reason == self.termination_reason,
    {
        let res = GameState {
            initial_deck: self.initial_deck.clone(),
            tableau: self.tableau.clone(),
            moves: self.moves.clone(),
            tableau_hash: self.tableau_hash,
            termination_reason: self.termination_reason,
        };
        proof {
            assert(res.initial_deck@ =~= self.initial_deck@);
            assert(res.moves@ =~= self.moves@);
        }
        res
    }
}

impl GameState {
    /// Well-formedness: the deck is a full 52-card deal, the recorded
    /// moves form a legal line from it, the cached tableau is exactly
    /// their replay, and the cached hash is that tableau's fingerprint.
    pub open spec fn wf(self) -> bool {
        &&& self.initial_deck@.len() == CARDS_PER_DECK
        &&& forall|i: int|
            0 <= i < self.initial_deck@.len() ==> card_valid(#[trigger] self.initial_deck@[i])
        &&& legal_line(spec_deal(self.initial_deck@), self.moves@)
        &&& self.tableau@ == spec_replay(spec_deal(self.initial_deck@), self.moves@)
        &&& tab_good(self.tableau@)
        &&& self.tableau_hash == spec_hash(self.tableau@)
    }

    /// Create a new game state from an initial deck with no moves
    /// played.
    pub fn new(initial_deck: Vec<Card>) -> (g: GameState)
        requires
            initial_deck@.len() == CARDS_PER_DECK,
            forall|i: int| 0 <= i < initial_deck@.len() ==> card_valid(#[trigger] initial_deck@[i]),
        ensures
            g.wf(),
            g.initial_deck@ == initial_deck@,
            g.moves@.len() == 0,
            g.tableau@ == spec_deal(initial_deck@),
            g.termination_reason is None,
    {
        proof {
            lemma_deal_good(initial_deck@);
        }
        let tableau = Tableau::deal_from_shuffled(&initial_deck);
        let tableau_hash = hash_tableau64(&tableau);
        GameState { initial_deck, tableau, moves: Vec::new(), tableau_hash, termination_reason: None }
    }

    /// Create a game state from an initial deck and an existing legal
    /// move line, replaying all moves so that the cached tableau and
    /// hash are consistent with the history.
    pub fn from_parts(initial_deck: Vec<Card>, moves: Vec<Move>) -> (g: GameState)
        requires
            initial_deck@.len() == CARDS_PER_DECK,
            forall|i: int| 0 <= i < initial_deck@.len() ==> card_valid(#[trigger] initial_deck@[i]),
            legal_line(spec_deal(initial_deck@), moves@),
        ensures
            g.wf(),
            g.initial_deck@ == initial_deck@,
            g.moves@ == moves@,
            g.tableau@ == spec_replay(spec_deal(initial_deck@), moves@),
            g.termination_reason is None,
    {
        let ghost t0 = spec_deal(initial_deck@);
        proof {
            lemma_deal_good(initial_deck@);
        }
        let mut tableau = Tableau::deal_from_shuffled(&initial_deck);
        let mut i: usize = 0;
        while i < moves.len()
            invariant
                i <= moves@.len(),
                legal_line(t0, moves@),
                tab_good(t0),
                tableau@ == spec_replay(t0, moves@.take(i as int)),
                tab_good(tableau@),
            decreases moves@.len() - i,
        {
            proof {
                lemma_legal_line_index(t0, moves@, i as int);
                lemma_replay_good(t0, moves@.take(i as int));
            }
            let mv = moves[i];
            mv.apply(&mut tableau);
            proof {
                lemma_apply_preserves_good(spec_replay(t0, moves@.take(i as int)), mv.kind);
            }
            i = i + 1;
        }
        proof {
            assert(moves@.take(moves@.len() as int) =~= moves@);
        }
        let tableau_hash = hash_tableau64(&tableau);
        GameState { initial_deck, tableau, moves, tableau_hash, termination_reason: None }
    }

    /// Number of moves that have been applied.
    pub fn move_count(&self) -> (n: usize)
        ensures
            n == self.moves@.len(),
    {
        self.moves.len()
    }

    /// Whether no moves have yet been applied.
    pub fn is_at_initial(&self) -> (r: bool)
        ensures
            r == (self.moves@.len() == 0),
    {
        self.moves.len() == 0
    }

    /// Apply a move to this game state: mutate the cached tableau,
    /// append the move to the move stack, and recompute the hash.
    /// This is the only sanctioned mutator.
    pub fn apply_move(&mut self, mv: Move)
        requires
            old(self).wf(),
            spec_move_legal(old(self).tableau@, mv.kind),
        ensures
            final(self).wf(),
            final(self).initial_deck@ == old(self).initial_deck@,
            final(self).moves@ == old(self).moves@.push(mv),
            final(self).tableau@ == spec_apply(old(self).tableau@, mv.kind),
            final(self).termination_reason == old(self).termination_reason,
    {
        proof {
            lemma_legal_line_push(spec_deal(self.initial_deck@), self.moves@, mv);
            lemma_apply_preserves_good(self.tableau@, mv.kind);
        }
        mv.apply(&mut self.tableau);
        self.moves.push(mv);
        self.tableau_hash = hash_tableau64(&self.tableau);
    }

    /// Reconstruct the current tableau from scratch by dealing the
    /// initial deck and replaying all recorded moves in order. The
    /// result provably equals the cached tableau.
    pub fn recompute_tableau_from_history(&self) -> (tab: Tableau)
        requires
            self.wf(),
        ensures
            tab@ == self.tableau@,
    {
        let ghost t0 = spec_deal(self.initial_deck@);
        proof {
            lemma_deal_good(self.initial_deck@);
        }
        let mut tab = Tableau::deal_from_shuffled(&self.initial_deck);
        let mut i: usize = 0;
        while i < self.moves.len()
            invariant
                i <= self.moves@.len(),
                t0 == spec_deal(self.initial_deck@),
                legal_line(t0, self.moves@),
                tab_good(t0),
                tab@ == spec_replay(t0, self.moves@.take(i as int)),
                tab_good(tab@),
            decreases self.moves@.len() - i,
        {
            proof {
                lemma_legal_line_index(t0, self.moves@, i as int);
                lemma_replay_good(t0, self.moves@.take(i as int));
            }
            let mv = self.moves[i];
            mv.apply(&mut tab);
            proof {
                lemma_apply_preserves_good(spec_replay(t0, self.moves@.take(i as int)), mv.kind);
            }
            i = i + 1;
        }
        proof {
            assert(self.moves@.take(self.moves@.len() as int) =~= self.moves@);
        }
        tab
    }

    /// Return a copy of the current tableau.
    pub fn current_tableau(&self) -> (tab: Tableau)
        ensures
            tab@ == self.tableau@,
    {
        self.tableau.clone()
    }
}

} // verus!
