//! Bounded depth-first search over the Klondike position graph.
//!
//! The solver explores with an explicit stack of histories (no host
//! recursion), deduplicates positions by fingerprint, and is bounded
//! by a node budget and a depth budget. It always terminates; a
//! reported win comes with a move line that provably replays from the
//! starting position to a won position; and a reported loss comes
//! with an exhaustion certificate — an explored set containing the
//! start, free of wins, and closed under legal moves up to
//! fingerprints — which [`lemma_exhausted_excludes_win`] turns into
//! "no legal line wins" whenever no fingerprint collision touches the
//! explored set.

use crate::card::{card_valid, Card, CARDS_PER_DECK};
use crate::game::{
    hash_tableau64, legal_line, lemma_legal_line_push, spec_hash, spec_replay, TerminationReason,
};
use crate::moves::{
    generate_legal_moves, in_moves, lemma_apply_preserves_good, lemma_deal_good, spec_apply,
    spec_move_legal, tab_good, Move, MoveKind,
};
use crate::tableau::{spec_deal, tab_is_win, TabModel, Tableau};
use std::collections::HashSet;
use vstd::prelude::*;

verus! {

/// Limits for one search run: a hard cap on visited nodes and a
/// maximum move-sequence depth. They keep the search finite in the
/// presence of redeals and cycles.
#[derive(Clone, Copy, Debug)]
pub struct SearchLimits {
    /// Hard cap on the number of nodes visited in a single search.
    pub max_nodes: u64,
    /// Maximum depth (number of moves from the initial position).
    pub max_depth: u16,
}

impl Default for SearchLimits {
    /// The default budget: one hundred thousand nodes, 256 moves deep.
    fn default() -> (r: SearchLimits)
        ensures
            r.max_nodes == 100000,
            r.max_depth == 256,
    {
        SearchLimits { max_nodes: 100000, max_depth: 256 }
    }
}

/// How much detail to keep while exploring the tree for one deck.
#[derive(Clone, Copy, Debug)]
pub enum DetailLevel {
    /// Only return an outcome; keep no per-node information.
    Summary,
    /// Record every visited node's position and move stack in the
    /// outcome's trace. This has no effect on the search itself.
    Trace,
}

/// Configuration for running a search on a single starting deck.
#[derive(Clone, Copy, Debug)]
pub struct SearchConfig {
    /// Limits on how far the search may go.
    pub limits: SearchLimits,
    /// How much detail to keep while searching.
    pub detail: DetailLevel,
}

impl Default for SearchConfig {
    /// The default configuration: default limits, summary detail.
    fn default() -> (r: SearchConfig)
        ensures
            r.limits.max_nodes == 100000,
            r.limits.max_depth == 256,
            r.detail is Summary,
    {
        SearchConfig { limits: SearchLimits::default(), detail: DetailLevel::Summary }
    }
}

/// One node kept in the outcome's trace: the position visited, the
/// moves that reached it, and its fingerprint.
#[derive(Debug)]
pub struct TraceEntry {
    pub tableau: Tableau,
    pub moves: Vec<Move>,
    pub hash: u64,
}

/// Outcome of searching from one starting position (no deck attached).
#[derive(Debug)]
pub struct PositionOutcome {
    /// Whether a won position was reached.
    pub is_win: bool,
    /// A legal move line from the start to a won position, when won.
    pub winning_line: Option<Vec<Move>>,
    /// Number of nodes popped before terminating.
    pub nodes_visited: u64,
    /// Why the search stopped.
    pub termination: TerminationReason,
    /// The longest move line among visited nodes.
    pub max_branch_depth: usize,
    /// The largest size the pending stack reached.
    pub max_shelved: usize,
    /// Visited nodes with no legal moves at all.
    pub dead_end_branches: u64,
    /// Visited nodes whose children were all already visited.
    pub loop_pruned_branches: u64,
    /// Per-node records, filled only at `DetailLevel::Trace`.
    pub trace: Vec<TraceEntry>,
}

/// Outcome of solving a single starting deck.
#[derive(Debug)]
pub struct GameOutcome {
    /// The exact initial deck permutation used for this game.
    pub initial_deck: Vec<Card>,
    /// Whether a win was found from this starting deck.
    pub is_win: bool,
    /// If won, a full legal move sequence from the initial position
    /// to a won position.
    pub winning_line: Option<Vec<Move>>,
    /// Number of search nodes visited before terminating.
    pub nodes_visited: u64,
    /// Why the search stopped.
    pub termination: TerminationReason,
    /// The longest move line among visited nodes.
    pub max_branch_depth: usize,
    /// The largest size the pending stack reached.
    pub max_shelved: usize,
    /// Visited nodes with no legal moves at all.
    pub dead_end_branches: u64,
    /// Visited nodes whose children were all already visited.
    pub loop_pruned_branches: u64,
    /// Per-node records, filled only at `DetailLevel::Trace`.
    pub trace: Vec<TraceEntry>,
}

/// One pending branch: a position together with the legal line that
/// reached it from the search's starting position.
struct SearchNode {
    tableau: Tableau,
    moves: Vec<Move>,
    hash: u64,
}

/// A pending branch is consistent with the starting position: its
/// moves are a legal line from the start and its tableau is their
/// replay.
spec fn node_wf(n: SearchNode, start: TabModel) -> bool {
    &&& legal_line(start, n.moves@)
    &&& n.tableau@ == spec_replay(start, n.moves@)
    &&& tab_good(n.tableau@)
}

/// A line of moves ending in a dead end: legal from the start, not a
/// win, and without a single legal continuation.
pub open spec fn dead_end_witness(start: TabModel, line: Seq<Move>) -> bool {
    &&& legal_line(start, line)
    &&& !tab_is_win(spec_replay(start, line))
    &&& forall|m: MoveKind| !spec_move_legal(spec_replay(start, line), m)
}

/// The certificate a finished (un-cut, un-budgeted) losing search
/// leaves behind: a set of explored positions that contains the
/// start, contains no won position, and is closed under legal moves
/// up to fingerprints — every legal move out of an explored position
/// lands on the fingerprint of some explored position.
pub open spec fn search_exhausted(start: TabModel, ex: Set<TabModel>) -> bool {
    &&& ex.contains(start)
    &&& forall|p: TabModel| #[trigger] ex.contains(p) ==> !tab_is_win(p)
    &&& forall|p: TabModel, m: MoveKind|
        ex.contains(p) && #[trigger] spec_move_legal(p, m) ==> exists|q: TabModel|
            #[trigger] ex.contains(q) && spec_hash(q) == spec_hash(spec_apply(p, m))
}

/// A set of positions a bounded search has genuinely visited: each
/// member is reached from the start by a legal line within the depth
/// budget, and no two members share a fingerprint.
pub open spec fn visited_cover(start: TabModel, max_depth: int, reached: Set<TabModel>) -> bool {
    &&& reached.finite()
    &&& forall|p: TabModel| #[trigger] reached.contains(p) ==> exists|line: Seq<Move>|
        #[trigger] legal_line(start, line) && spec_replay(start, line) == p && line.len()
            <= max_depth
    &&& forall|p1: TabModel, p2: TabModel|
        #![trigger reached.contains(p1), reached.contains(p2)]
        reached.contains(p1) && reached.contains(p2) && p1 != p2 ==> spec_hash(p1) != spec_hash(
            p2,
        )
}

/// Law (a loss report is definitive up to fingerprints): from an
/// exhaustion certificate whose explored set no outside position
/// collides with, no legal move line of any length reaches a win.
/// Fingerprint collisions are the one caveat a deduplicated search
/// inherently carries.
pub proof fn lemma_exhausted_excludes_win(start: TabModel, ex: Set<TabModel>, line: Seq<Move>)
    requires
        search_exhausted(start, ex),
        forall|p: TabModel, q: TabModel|
            #![trigger ex.contains(p), spec_hash(q)]
            ex.contains(p) && spec_hash(q) == spec_hash(p) ==> q == p,
        legal_line(start, line),
    ensures
        ex.contains(spec_replay(start, line)),
        !tab_is_win(spec_replay(start, line)),
    decreases line.len(),
{
    if line.len() > 0 {
        lemma_exhausted_excludes_win(start, ex, line.drop_last());
        let p = spec_replay(start, line.drop_last());
        let m = line.last().kind;
        assert(spec_move_legal(p, m));
        let q = choose|q: TabModel|
            #[trigger] ex.contains(q) && spec_hash(q) == spec_hash(spec_apply(p, m));
        assert(spec_apply(p, m) == q);
    }
}

/// The contract every search outcome meets: a claimed win carries a
/// legal line, no longer than the depth budget, whose replay from the
/// start is a won position, and the line is present exactly when the
/// search won; the node budget is respected, and spent whenever the
/// budget stopped the search; a reported dead end really is one; and
/// a loss report certifies fingerprint-level exhaustion.
pub open spec fn position_outcome_ok(
    start: TabModel,
    limits: SearchLimits,
    o: PositionOutcome,
) -> bool {
    &&& o.is_win <==> o.winning_line is Some
    &&& o.is_win <==> o.termination == TerminationReason::Win
    &&& (o.is_win ==> {
        &&& legal_line(start, o.winning_line.unwrap()@)
        &&& tab_is_win(spec_replay(start, o.winning_line.unwrap()@))
        &&& o.winning_line.unwrap()@.len() <= limits.max_depth
    })
    &&& o.nodes_visited <= limits.max_nodes
    &&& (limits.max_nodes >= 1 ==> o.nodes_visited >= 1)
    &&& (o.termination == TerminationReason::MaxNodesReached ==> o.nodes_visited
        == limits.max_nodes)
    &&& (exists|reached: Set<TabModel>|
        #[trigger] visited_cover(start, limits.max_depth as int, reached) && reached.len()
            == o.nodes_visited)
    &&& o.dead_end_branches + o.loop_pruned_branches <= o.nodes_visited
    &&& (o.dead_end_branches >= 1 ==> exists|line: Seq<Move>|
        #[trigger] dead_end_witness(start, line))
    &&& (o.termination == TerminationReason::LossNoMoreMoves ==> exists|ex: Set<TabModel>|
        #[trigger] search_exhausted(start, ex))
    &&& (o.termination == TerminationReason::MaxDepthReached ==> exists|line: Seq<Move>|
        #[trigger] legal_line(start, line) && line.len() == limits.max_depth && !tab_is_win(
            spec_replay(start, line),
        ))
    &&& (!o.is_win ==> o.termination == TerminationReason::LossNoMoreMoves || o.termination
        == TerminationReason::MaxNodesReached || o.termination
        == TerminationReason::MaxDepthReached)
}

/// Bounded depth-first search from an arbitrary reachable position.
///
/// Dealing is not required: a position that is already won reports a
/// win with an empty move line after visiting exactly one node.
#[verifier::rlimit(100)]
pub fn solve_from_position(start: &Tableau, cfg: &SearchConfig) -> (o: PositionOutcome)
    requires
        tab_good(start@),
    ensures
        position_outcome_ok(start@, cfg.limits, o),
        start@.found.len() == 4 && tab_is_win(start@) && cfg.limits.max_nodes >= 1
            ==> o.is_win && o.nodes_visited == 1 && o.winning_line.unwrap()@.len() == 0,
{
    broadcast use vstd::std_specs::hash::group_hash_axioms;
    broadcast use vstd::set::group_set_axioms;

    let ghost start0 = start@;
    let max_nodes = cfg.limits.max_nodes;
    let max_depth = cfg.limits.max_depth as usize;
    let keep_trace = match cfg.detail {
        DetailLevel::Summary => false,
        DetailLevel::Trace => true,
    };

    let mut stack: Vec<SearchNode> = Vec::new();
    let first_hash = hash_tableau64(start);
    stack.push(SearchNode { tableau: start.clone(), moves: Vec::new(), hash: first_hash });

    let mut visited: HashSet<u64> = HashSet::new();
    visited.insert(first_hash);

    let mut nodes_visited: u64 = 0;
    let mut dead_end_branches: u64 = 0;
    let mut loop_pruned_branches: u64 = 0;
    let mut depth_cutoffs: u64 = 0;
    let mut max_branch_depth: usize = 0;
    let mut max_shelved: usize = 1;
    let mut trace: Vec<TraceEntry> = Vec::new();
    let mut budget_hit = false;

    // The positions popped so far, the expanded subset, one dead-end
    // line if any was seen, and one full-depth line if any branch was
    // cut off.
    let ghost mut popped: Set<TabModel> = Set::empty();
    let ghost mut ex: Set<TabModel> = Set::empty();
    let ghost mut dead_line: Seq<Move> = Seq::empty();
    let ghost mut cut_line: Seq<Move> = Seq::empty();

    proof {
        assert(stack@[0].tableau@ == start0);
        assert forall|h: u64| #[trigger] visited@.contains(h) implies (exists|p: TabModel|
            #[trigger] ex.contains(p) && spec_hash(p) == h) || (exists|k: int|
            0 <= k < stack@.len() && spec_hash((#[trigger] stack@[k]).tableau@) == h) by {
            assert(h == first_hash);
            assert(spec_hash(stack@[0].tableau@) == h);
        }
    }

    while stack.len() > 0 && !budget_hit
        invariant
            tab_good(start0),
            start0 == start@,
            max_nodes == cfg.limits.max_nodes,
            max_depth == cfg.limits.max_depth as usize,
            nodes_visited <= max_nodes,
            budget_hit ==> nodes_visited == max_nodes,
            nodes_visited == 0 && !budget_hit ==> stack@.len() == 1,
            dead_end_branches + loop_pruned_branches + depth_cutoffs <= nodes_visited,
            forall|k: int| 0 <= k < stack@.len() ==> node_wf(#[trigger] stack@[k], start0),
            forall|k: int|
                0 <= k < stack@.len() ==> (#[trigger] stack@[k]).moves@.len() <= max_depth,
            popped.finite(),
            popped.len() == nodes_visited,
            visited_cover(start0, max_depth as int, popped),
            forall|p: TabModel| #[trigger] popped.contains(p) ==> visited@.contains(spec_hash(p)),
            forall|k1: int, k2: int|
                0 <= k1 < k2 < stack@.len() ==> spec_hash((#[trigger] stack@[k1]).tableau@)
                    != spec_hash((#[trigger] stack@[k2]).tableau@),
            forall|k: int, p: TabModel|
                #![trigger spec_hash(stack@[k].tableau@), popped.contains(p)]
                0 <= k < stack@.len() && popped.contains(p) ==> spec_hash(stack@[k].tableau@)
                    != spec_hash(p),
            forall|k: int|
                0 <= k < stack@.len() ==> visited@.contains(
                    spec_hash((#[trigger] stack@[k]).tableau@),
                ),
            dead_end_branches >= 1 ==> dead_end_witness(start0, dead_line),
            depth_cutoffs >= 1 ==> legal_line(start0, cut_line) && cut_line.len() == max_depth
                && !tab_is_win(spec_replay(start0, cut_line)),
            forall|p: TabModel| #[trigger] ex.contains(p) ==> !tab_is_win(p),
            forall|p: TabModel, m: MoveKind|
                ex.contains(p) && #[trigger] spec_move_legal(p, m) ==> visited@.contains(
                    spec_hash(spec_apply(p, m)),
                ),
            depth_cutoffs == 0 ==> (forall|h: u64|
                #[trigger] visited@.contains(h) ==> (exists|p: TabModel|
                    #[trigger] ex.contains(p) && spec_hash(p) == h) || (exists|k: int|
                    0 <= k < stack@.len() && spec_hash((#[trigger] stack@[k]).tableau@) == h)),
            depth_cutoffs == 0 ==> (ex.contains(start0) || (nodes_visited == 0 && stack@.len()
                == 1 && stack@[0].tableau@ == start0)),
            tab_is_win(start0) && max_nodes >= 1 ==> nodes_visited == 0 && !budget_hit
                && stack@.len() == 1 && stack@[0].moves@.len() == 0 && stack@[0].tableau@
                == start0,
        decreases
                max_nodes - nodes_visited + if budget_hit {
                    0int
                } else {
                    1int
                },
    {
        if nodes_visited == max_nodes {
            budget_hit = true;
        } else {
            let ghost stack_before = stack@;
            let node = stack.pop().unwrap();
            nodes_visited = nodes_visited + 1;
            proof {
                let ghost popped0 = popped;
                let last = stack_before.len() - 1;
                assert(!popped.contains(node.tableau@)) by {
                    if popped.contains(node.tableau@) {
                        assert(spec_hash(stack_before[last].tableau@) != spec_hash(
                            node.tableau@,
                        ));
                    }
                }
                popped = popped.insert(node.tableau@);
                assert(legal_line(start0, node.moves@) && spec_replay(start0, node.moves@)
                    == node.tableau@ && node.moves@.len() <= max_depth);
                assert forall|p1: TabModel, p2: TabModel|
                    #![trigger popped.contains(p1), popped.contains(p2)]
                    popped.contains(p1) && popped.contains(p2) && p1 != p2 implies spec_hash(p1)
                    != spec_hash(p2) by {
                    if p1 == node.tableau@ && popped0.contains(p2) {
                        assert(spec_hash(stack_before[last].tableau@) != spec_hash(p2));
                    } else if p2 == node.tableau@ && popped0.contains(p1) {
                        assert(spec_hash(stack_before[last].tableau@) != spec_hash(p1));
                    }
                }
                assert(visited_cover(start0, max_depth as int, popped));
                assert forall|k: int, p: TabModel|
                    #![trigger spec_hash(stack@[k].tableau@), popped.contains(p)]
                    0 <= k < stack@.len() && popped.contains(p) implies spec_hash(
                    stack@[k].tableau@,
                ) != spec_hash(p) by {
                    assert(stack@[k] == stack_before[k]);
                    if p == node.tableau@ {
                        assert(spec_hash(stack_before[k].tableau@) != spec_hash(
                            stack_before[last].tableau@,
                        ));
                    } else {
                        assert(spec_hash(stack_before[k].tableau@) != spec_hash(p));
                    }
                }
            }
            if node.moves.len() > max_branch_depth {
                max_branch_depth = node.moves.len();
            }
            if keep_trace {
                let entry = TraceEntry {
                    tableau: node.tableau.clone(),
                    moves: node.moves.clone(),
                    hash: node.hash,
                };
                trace.push(entry);
            }

            if node.tableau.is_win() {
                return PositionOutcome {
                    is_win: true,
                    winning_line: Some(node.moves),
                    nodes_visited,
                    termination: TerminationReason::Win,
                    max_branch_depth,
                    max_shelved,
                    dead_end_branches,
                    loop_pruned_branches,
                    trace,
                };
            }

            if node.moves.len() >= max_depth {
                // Depth cutoff: discard this branch unexpanded. From
                // here on the search is not exhaustive.
                depth_cutoffs = depth_cutoffs + 1;
                proof {
                    cut_line = node.moves@;
                }
            } else {
                let moves = generate_legal_moves(&node.tableau);
                if moves.len() == 0 {
                    // Dead end: no moves and not a win.
                    dead_end_branches = dead_end_branches + 1;
                    proof {
                        dead_line = node.moves@;
                        assert forall|m: MoveKind| !spec_move_legal(
                            node.tableau@,
                            m,
                        ) by {
                            if spec_move_legal(node.tableau@, m) {
                                assert(in_moves(moves@, m));
                            }
                        }
                        let ghost ex0 = ex;
                        ex = ex.insert(node.tableau@);
                        if depth_cutoffs == 0 {
                            assert forall|h: u64| #[trigger] visited@.contains(h) implies (exists|
                                p: TabModel,
                            |
                                #[trigger] ex.contains(p) && spec_hash(p) == h) || (exists|k: int|
                                0 <= k < stack@.len() && spec_hash(
                                    (#[trigger] stack@[k]).tableau@,
                                ) == h) by {
                                assert((exists|p: TabModel|
                                    #[trigger] ex0.contains(p) && spec_hash(p) == h) || (exists|
                                    kk: int,
                                |
                                    0 <= kk < stack_before.len() && spec_hash(
                                        (#[trigger] stack_before[kk]).tableau@,
                                    ) == h));
                                if exists|kk: int|
                                    0 <= kk < stack_before.len() && spec_hash(
                                        (#[trigger] stack_before[kk]).tableau@,
                                    ) == h {
                                    let kk = choose|kk: int|
                                        0 <= kk < stack_before.len() && spec_hash(
                                            (#[trigger] stack_before[kk]).tableau@,
                                        ) == h;
                                    if kk < stack_before.len() - 1 {
                                        assert(stack@[kk] == stack_before[kk]);
                                        assert(spec_hash(stack@[kk].tableau@) == h);
                                    } else {
                                        assert(stack_before[kk] == node);
                                        assert(ex.contains(node.tableau@) && spec_hash(
                                            node.tableau@,
                                        ) == h);
                                    }
                                } else {
                                    let p = choose|p: TabModel|
                                        #[trigger] ex0.contains(p) && spec_hash(p) == h;
                                    assert(ex.contains(p));
                                }
                            }
                        }
                    }
                } else {
                    proof {
                        assert(!tab_is_win(start0)) by {
                            if tab_is_win(start0) && max_nodes >= 1 {
                                assert(node.tableau@ == start0);
                            }
                        }
                        if depth_cutoffs == 0 {
                            assert forall|h: u64| #[trigger] visited@.contains(h) implies (exists|
                                p: TabModel,
                            |
                                #[trigger] ex.contains(p) && spec_hash(p) == h) || (exists|j: int|
                                0 <= j < stack@.len() && spec_hash(
                                    (#[trigger] stack@[j]).tableau@,
                                ) == h) || h == spec_hash(node.tableau@) by {
                                if exists|kk: int|
                                    0 <= kk < stack_before.len() && spec_hash(
                                        (#[trigger] stack_before[kk]).tableau@,
                                    ) == h {
                                    let kk = choose|kk: int|
                                        0 <= kk < stack_before.len() && spec_hash(
                                            (#[trigger] stack_before[kk]).tableau@,
                                        ) == h;
                                    if kk < stack_before.len() - 1 {
                                        assert(stack@[kk] == stack_before[kk]);
                                        assert(spec_hash(stack@[kk].tableau@) == h);
                                    } else {
                                        assert(stack_before[kk] == node);
                                    }
                                }
                            }
                        }
                    }
                    // Push children in reverse catalogue order so the
                    // first-listed move is explored first.
                    let mut admitted: usize = 0;
                    let mut k = moves.len();
                    while k > 0
                        invariant
                            k <= moves@.len(),
                            moves@.len() <= usize::MAX,
                            admitted <= moves@.len() - k,
                            tab_good(start0),
                            !tab_is_win(start0),
                            !budget_hit,
                            1 <= nodes_visited <= max_nodes,
                            node_wf(node, start0),
                            !tab_is_win(node.tableau@),
                            node.moves@.len() < max_depth,
                            dead_end_branches + loop_pruned_branches + depth_cutoffs
                                < nodes_visited,
                            dead_end_branches >= 1 ==> dead_end_witness(start0, dead_line),
                            depth_cutoffs >= 1 ==> legal_line(start0, cut_line)
                                && cut_line.len() == max_depth && !tab_is_win(
                                spec_replay(start0, cut_line),
                            ),
                            forall|j: int|
                                0 <= j < moves@.len() ==> spec_move_legal(
                                    node.tableau@,
                                    #[trigger] moves@[j].kind,
                                ),
                            forall|m: MoveKind|
                                #[trigger] spec_move_legal(node.tableau@, m) ==> in_moves(
                                    moves@,
                                    m,
                                ),
                            forall|j: int|
                                0 <= j < stack@.len() ==> node_wf(#[trigger] stack@[j], start0),
                            forall|j: int|
                                0 <= j < stack@.len() ==> (#[trigger] stack@[j]).moves@.len()
                                    <= max_depth,
                            popped.finite(),
                            popped.len() == nodes_visited,
                            visited_cover(start0, max_depth as int, popped),
                            forall|p: TabModel|
                                #[trigger] popped.contains(p) ==> visited@.contains(spec_hash(p)),
                            forall|k1: int, k2: int|
                                0 <= k1 < k2 < stack@.len() ==> spec_hash(
                                    (#[trigger] stack@[k1]).tableau@,
                                ) != spec_hash((#[trigger] stack@[k2]).tableau@),
                            forall|j: int, p: TabModel|
                                #![trigger spec_hash(stack@[j].tableau@), popped.contains(p)]
                                0 <= j < stack@.len() && popped.contains(p) ==> spec_hash(
                                    stack@[j].tableau@,
                                ) != spec_hash(p),
                            forall|j: int|
                                0 <= j < stack@.len() ==> visited@.contains(
                                    spec_hash((#[trigger] stack@[j]).tableau@),
                                ),
                            forall|p: TabModel| #[trigger] ex.contains(p) ==> !tab_is_win(p),
                            forall|p: TabModel, m: MoveKind|
                                ex.contains(p) && #[trigger] spec_move_legal(p, m)
                                    ==> visited@.contains(spec_hash(spec_apply(p, m))),
                            forall|j: int|
                                k <= j < moves@.len() ==> visited@.contains(
                                    spec_hash(
                                        spec_apply(node.tableau@, (#[trigger] moves@[j]).kind),
                                    ),
                                ),
                            depth_cutoffs == 0 ==> (forall|h: u64|
                                #[trigger] visited@.contains(h) ==> (exists|p: TabModel|
                                    #[trigger] ex.contains(p) && spec_hash(p) == h) || (exists|
                                    j: int,
                                |
                                    0 <= j < stack@.len() && spec_hash(
                                        (#[trigger] stack@[j]).tableau@,
                                    ) == h) || h == spec_hash(node.tableau@)),
                            depth_cutoffs == 0 ==> (ex.contains(start0) || node.tableau@
                                == start0),
                        decreases k,
                    {
                        k = k - 1;
                        let mv = moves[k];
                        let mut child_tab = node.tableau.clone();
                        mv.apply(&mut child_tab);
                        proof {
                            lemma_apply_preserves_good(node.tableau@, mv.kind);
                            lemma_legal_line_push(start0, node.moves@, mv);
                        }
                        let child_hash = hash_tableau64(&child_tab);
                        let ghost visited_before = visited@;
                        let ghost stack_inner_before = stack@;
                        if visited.insert(child_hash) {
                            let mut child_moves = node.moves.clone();
                            child_moves.push(mv);
                            stack.push(
                                SearchNode {
                                    tableau: child_tab,
                                    moves: child_moves,
                                    hash: child_hash,
                                },
                            );
                            proof {
                                assert(admitted < moves@.len());
                                let lastj = stack@.len() - 1;
                                assert(spec_hash(stack@[lastj].tableau@) == child_hash);
                                assert(!visited_before.contains(child_hash));
                                assert forall|k1: int, k2: int|
                                    0 <= k1 < k2 < stack@.len() implies spec_hash(
                                    (#[trigger] stack@[k1]).tableau@,
                                ) != spec_hash((#[trigger] stack@[k2]).tableau@) by {
                                    if k2 == lastj {
                                        assert(stack@[k1] == stack_inner_before[k1]);
                                        assert(visited_before.contains(
                                            spec_hash(stack_inner_before[k1].tableau@),
                                        ));
                                    } else {
                                        assert(stack@[k1] == stack_inner_before[k1]);
                                        assert(stack@[k2] == stack_inner_before[k2]);
                                    }
                                }
                                assert forall|j: int, p: TabModel|
                                    #![trigger spec_hash(stack@[j].tableau@), popped.contains(p)]
                                    0 <= j < stack@.len() && popped.contains(p) implies spec_hash(
                                    stack@[j].tableau@,
                                ) != spec_hash(p) by {
                                    if j == lastj {
                                        assert(visited_before.contains(spec_hash(p)));
                                    } else {
                                        assert(stack@[j] == stack_inner_before[j]);
                                        assert(spec_hash(stack_inner_before[j].tableau@)
                                            != spec_hash(p));
                                    }
                                }
                            }
                            admitted = admitted + 1;
                            proof {
                                if depth_cutoffs == 0 {
                                    assert forall|h: u64| #[trigger] visited@.contains(h) implies (
                                    exists|p: TabModel|
                                        #[trigger] ex.contains(p) && spec_hash(p) == h) || (exists|
                                        j: int,
                                    |
                                        0 <= j < stack@.len() && spec_hash(
                                            (#[trigger] stack@[j]).tableau@,
                                        ) == h) || h == spec_hash(node.tableau@) by {
                                        if h == child_hash {
                                            let last = stack@.len() - 1;
                                            assert(spec_hash(stack@[last].tableau@) == h);
                                        } else {
                                            assert(visited_before.contains(h));
                                            assert((exists|p: TabModel|
                                                #[trigger] ex.contains(p) && spec_hash(p) == h)
                                                || (exists|j: int|
                                                0 <= j < stack_inner_before.len() && spec_hash(
                                                    (#[trigger] stack_inner_before[j]).tableau@,
                                                ) == h) || h == spec_hash(node.tableau@));
                                            if exists|j: int|
                                                0 <= j < stack_inner_before.len() && spec_hash(
                                                    (#[trigger] stack_inner_before[j]).tableau@,
                                                ) == h {
                                                let j = choose|j: int|
                                                    0 <= j < stack_inner_before.len() && spec_hash(
                                                        (#[trigger] stack_inner_before[j]).tableau@,
                                                    ) == h;
                                                assert(stack@[j] == stack_inner_before[j]);
                                                assert(spec_hash(stack@[j].tableau@) == h);
                                            }
                                        }
                                    }
                                }
                            }
                        }
                    }
                    if admitted == 0 {
                        // Every child was already visited.
                        loop_pruned_branches = loop_pruned_branches + 1;
                    }
                    if stack.len() > max_shelved {
                        max_shelved = stack.len();
                    }
                    proof {
                        let ghost ex0 = ex;
                        ex = ex.insert(node.tableau@);
                        assert forall|m: MoveKind| spec_move_legal(node.tableau@, m)
                            implies visited@.contains(
                            spec_hash(spec_apply(node.tableau@, m)),
                        ) by {
                            assert(in_moves(moves@, m));
                            let i = choose|i: int|
                                0 <= i < moves@.len() && moves@[i].kind == m;
                        }
                        if depth_cutoffs == 0 {
                            assert forall|h: u64| #[trigger] visited@.contains(h) implies (exists|
                                p: TabModel,
                            |
                                #[trigger] ex.contains(p) && spec_hash(p) == h) || (exists|k: int|
                                0 <= k < stack@.len() && spec_hash(
                                    (#[trigger] stack@[k]).tableau@,
                                ) == h) by {
                                assert((exists|p: TabModel|
                                    #[trigger] ex0.contains(p) && spec_hash(p) == h) || (exists|
                                    j: int,
                                |
                                    0 <= j < stack@.len() && spec_hash(
                                        (#[trigger] stack@[j]).tableau@,
                                    ) == h) || h == spec_hash(node.tableau@));
                                if exists|p: TabModel|
                                    #[trigger] ex0.contains(p) && spec_hash(p) == h {
                                    let p = choose|p: TabModel|
                                        #[trigger] ex0.contains(p) && spec_hash(p) == h;
                                    assert(ex.contains(p));
                                } else if h == spec_hash(node.tableau@) {
                                    assert(ex.contains(node.tableau@));
                                }
                            }
                        }
                    }
                }
            }
        }
    }

    let termination = if budget_hit {
        TerminationReason::MaxNodesReached
    } else if depth_cutoffs > 0 {
        TerminationReason::MaxDepthReached
    } else {
        TerminationReason::LossNoMoreMoves
    };
    proof {
        if !budget_hit && depth_cutoffs == 0 {
            assert(ex.contains(start0));
            assert forall|p: TabModel, m: MoveKind|
                ex.contains(p) && #[trigger] spec_move_legal(p, m) implies exists|q: TabModel|
                #[trigger] ex.contains(q) && spec_hash(q) == spec_hash(spec_apply(p, m)) by {
                let h = spec_hash(spec_apply(p, m));
                assert(visited@.contains(h));
            }
            assert(search_exhausted(start0, ex));
        }
    }
    PositionOutcome {
        is_win: false,
        winning_line: None,
        nodes_visited,
        termination,
        max_branch_depth,
        max_shelved,
        dead_end_branches,
        loop_pruned_branches,
        trace,
    }
}

/// The contract a whole-deck outcome meets, relative to the dealt
/// starting position.
pub open spec fn game_outcome_ok(deck: Seq<Card>, limits: SearchLimits, o: GameOutcome) -> bool {
    &&& o.initial_deck@ == deck
    &&& o.is_win <==> o.winning_line is Some
    &&& o.is_win <==> o.termination == TerminationReason::Win
    &&& (o.is_win ==> {
        &&& legal_line(spec_deal(deck), o.winning_line.unwrap()@)
        &&& tab_is_win(spec_replay(spec_deal(deck), o.winning_line.unwrap()@))
        &&& o.winning_line.unwrap()@.len() <= limits.max_depth
    })
    &&& o.nodes_visited <= limits.max_nodes
    &&& (limits.max_nodes >= 1 ==> o.nodes_visited >= 1)
    &&& (o.termination == TerminationReason::MaxNodesReached ==> o.nodes_visited
        == limits.max_nodes)
    &&& (exists|reached: Set<TabModel>|
        #[trigger] visited_cover(spec_deal(deck), limits.max_depth as int, reached)
            && reached.len() == o.nodes_visited)
    &&& o.dead_end_branches + o.loop_pruned_branches <= o.nodes_visited
    &&& (o.dead_end_branches >= 1 ==> exists|line: Seq<Move>|
        #[trigger] dead_end_witness(spec_deal(deck), line))
    &&& (o.termination == TerminationReason::LossNoMoreMoves ==> exists|ex: Set<TabModel>|
        #[trigger] search_exhausted(spec_deal(deck), ex))
    &&& (o.termination == TerminationReason::MaxDepthReached ==> exists|line: Seq<Move>|
        #[trigger] legal_line(spec_deal(deck), line) && line.len() == limits.max_depth
            && !tab_is_win(spec_replay(spec_deal(deck), line)))
    &&& (!o.is_win ==> o.termination == TerminationReason::LossNoMoreMoves || o.termination
        == TerminationReason::MaxNodesReached || o.termination
        == TerminationReason::MaxDepthReached)
}

/// Solve one starting deck with explicit limits and detail level:
/// deal it out, then search depth-first from the dealt position.
pub fn solve_single_deck_with_config(initial_deck: Vec<Card>, cfg: &SearchConfig) -> (o:
    GameOutcome)
    requires
        initial_deck@.len() == CARDS_PER_DECK,
        forall|i: int| 0 <= i < initial_deck@.len() ==> card_valid(#[trigger] initial_deck@[i]),
    ensures
        game_outcome_ok(initial_deck@, cfg.limits, o),
{
    proof {
        lemma_deal_good(initial_deck@);
    }
    let start = Tableau::deal_from_shuffled(&initial_deck);
    let p = solve_from_position(&start, cfg);
    GameOutcome {
        initial_deck,
        is_win: p.is_win,
        winning_line: p.winning_line,
        nodes_visited: p.nodes_visited,
        termination: p.termination,
        max_branch_depth: p.max_branch_depth,
        max_shelved: p.max_shelved,
        dead_end_branches: p.dead_end_branches,
        loop_pruned_branches: p.loop_pruned_branches,
        trace: p.trace,
    }
}

/// Depth-first search with explicit limits, in summary mode.
pub fn solve_single_deck_dfs(initial_deck: Vec<Card>, limits: SearchLimits) -> (o: GameOutcome)
    requires
        initial_deck@.len() == CARDS_PER_DECK,
        forall|i: int| 0 <= i < initial_deck@.len() ==> card_valid(#[trigger] initial_deck@[i]),
    ensures
        game_outcome_ok(initial_deck@, limits, o),
{
    let cfg = SearchConfig { limits, detail: DetailLevel::Summary };
    solve_single_deck_with_config(initial_deck, &cfg)
}

/// Solve a single deck using depth-first search with default limits
/// and no per-node records.
pub fn solve_single_deck(initial_deck: Vec<Card>) -> (o: GameOutcome)
    requires
        initial_deck@.len() == CARDS_PER_DECK,
        forall|i: int| 0 <= i < initial_deck@.len() ==> card_valid(#[trigger] initial_deck@[i]),
    ensures
        game_outcome_ok(initial_deck@, SearchLimits { max_nodes: 100000, max_depth: 256 }, o),
{
    solve_single_deck_dfs(initial_deck, SearchLimits::default())
}

} // verus!
