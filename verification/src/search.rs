//! The search kernel: minimax with alpha-beta pruning over make and unmake of
//! one position, a transposition table, quiescence extensions, and iterative
//! deepening with aspiration windows and principal-variation search at the
//! root.
//!
//! The engine searches in place, with one position, one move buffer and
//! tables that it writes as it goes. What it computes is that of the
//! functions of `model`, which take the position and the tables as values:
//! each node, each iteration and the commitment of each iteration are held
//! to them.
use vstd::prelude::*;
use crate::eval::{evaluate_bb, evaluation, tiles_left, to_points, whole_points};
use crate::lookup::{hand_tiles, lemma_hand_tiles, popcount, valid_hand};
use crate::movegen::{
    MoveBuffer, count_moves_bb, generate_moves, is_legal_move, lemma_ends_after,
    lemma_move_list_legal, lemma_same_moves, move_list,
};
use crate::ordering::{
    OrderingTables, clear_move_ordering_data, moves_legal, order_moves_at_ply, record_history,
    record_killer,
};
use crate::model::{
    Folded, NODE_LIMIT, Progress, RootFolded, SCORE_INF, SearchModel, aspiration_window, at,
    begun, bound_flag, children, committed, fresh, iteration, new_model, no_progress, node,
    node_moves, probed, recorded, root_attempt, root_attempts, root_list, root_moves, searched,
    static_value, stored, worst,
};
use crate::position::{Position, lemma_toggle_count, valid_board, valid_placements};
use crate::scoring::{domino_score, score_block_bb};
use crate::tt::{
    TT_EXACT, TT_LOWER, TT_UPPER, TranspositionTable, TtHit, lemma_slot_index, slot_index,
    tt_new_generation, tt_probe, tt_store,
};
use crate::zobrist::{compute_root_hash, root_hash};

verus! {

/// The largest score of a position, in points.
pub const SCORE_MAX: i32 = 4000;

/// The deepest iteration.
pub const MAX_ITER_DEPTH: i32 = 50;

/// The time budget in milliseconds where the caller gives none.
pub const DEFAULT_BUDGET_MS: u64 = 5000;

/// The most nodes that one iteration can count: the limit, and what the
/// search visits while it falls back from the limit.
pub const NODE_MAX: u32 = 20_003_200;

/// The engine: the position under search and the tables that outlive a
/// search.
pub struct Engine {
    pos: Position,
    tt: TranspositionTable,
    moves: MoveBuffer,
    ordering: OrderingTables,
    node_count: u32,
    tt_probes: u32,
    tt_hits: u32,
    tt_cutoffs: u32,
    tt_hints: u32,
}

impl Engine {
    /// The tables have their size, the history scores are within their cap,
    /// and the transposition table holds scores of positions only.
    pub closed spec fn wf(&self) -> bool {
        &&& self.tt.wf()
        &&& self.tt.values_within(SCORE_MAX + 1)
        &&& self.moves.wf()
        &&& self.ordering.wf()
    }

    /// Every hit was a probe, and every hit gave a score or a hint.
    spec fn tallied(&self) -> bool {
        &&& self.tt_hits <= self.tt_probes
        &&& self.tt_cutoffs + self.tt_hints == self.tt_hits
    }

    /// The counters of the transposition table have not outrun the nodes.
    spec fn counters_ok(&self) -> bool {
        &&& self.tallied()
        &&& self.node_count <= NODE_MAX
        &&& self.tt_probes - self.node_count <= 49 * NODE_MAX
        &&& self.tt_hits - self.node_count <= 49 * NODE_MAX
        &&& self.tt_cutoffs - self.node_count <= 49 * NODE_MAX
        &&& self.tt_hints - self.node_count <= 49 * NODE_MAX
    }

    /// The counters of `self` have grown from those of `before`, and none
    /// by more than the nodes.
    spec fn counted_from(&self, before: &Engine) -> bool {
        &&& before.tallied() ==> self.tallied()
        &&& self.node_count >= before.node_count
        &&& self.tt_probes >= before.tt_probes
        &&& self.tt_hits >= before.tt_hits
        &&& self.tt_cutoffs >= before.tt_cutoffs
        &&& self.tt_hints >= before.tt_hints
        &&& self.tt_probes - before.tt_probes <= self.node_count - before.node_count
        &&& self.tt_hits - before.tt_hits <= self.node_count - before.node_count
        &&& self.tt_cutoffs - before.tt_cutoffs <= self.node_count - before.node_count
        &&& self.tt_hints - before.tt_hints <= self.node_count - before.node_count
    }

    /// The engine stands on a valid position with `is_ai` to move.
    spec fn ready(&self, is_ai: bool) -> bool {
        &&& self.wf()
        &&& self.pos.valid()
        &&& self.pos.hashed(is_ai)
        &&& self.counters_ok()
    }

    /// What the search reads and writes, as values.
    pub closed spec fn model(&self) -> SearchModel {
        SearchModel {
            pos: self.pos,
            slots: self.tt.slots@,
            generation: self.tt.generation,
            killer_tile: self.ordering.killer_tile@,
            killer_end: self.ordering.killer_end@,
            history: self.ordering.history@,
            nodes: self.node_count as int,
            probes: self.tt_probes as int,
            hits: self.tt_hits as int,
            cutoffs: self.tt_cutoffs as int,
            hints: self.tt_hints as int,
        }
    }

    /// The generation of the transposition table.
    pub closed spec fn generation(&self) -> int {
        self.tt.generation as int
    }

    /// No killer is recorded and every history score is 0.
    pub closed spec fn ordering_cleared(&self) -> bool {
        self.ordering.cleared()
    }

    /// An engine with empty tables.
    pub fn new() -> (engine: Engine)
        ensures
            engine.wf(),
            engine.generation() == 0,
            engine.ordering_cleared(),
            engine.model() == new_model(),
    {
        let pos = Position {
            ai_hand: 0,
            human_hand: 0,
            left: 7,
            right: 7,
            hash: 0,
            ply: 0,
            cons_pass: 0,
            match_diff: 0,
            p1_who: -1,
            p1_l: 0,
            p1_r: 0,
            p1_tile: -1,
            p2_who: -1,
            p2_l: 0,
            p2_r: 0,
        };
        let engine = Engine {
            pos,
            tt: TranspositionTable::new(),
            moves: MoveBuffer::new(),
            ordering: OrderingTables::new(),
            node_count: 0,
            tt_probes: 0,
            tt_hits: 0,
            tt_cutoffs: 0,
            tt_hints: 0,
        };
        proof {
            let m = engine.model();
            let n = new_model();
            assert(m.slots =~= n.slots);
            assert(m.killer_tile =~= n.killer_tile);
            assert(m.killer_end =~= n.killer_end);
            assert(m.history =~= n.history);
        }
        engine
    }

    /// The static evaluation of the position, in whole points.
    fn static_eval(&self) -> (score: i32)
        requires
            self.pos.valid(),
        ensures
            score == whole_points(
                evaluation(
                    self.pos.ai_hand,
                    self.pos.human_hand,
                    self.pos.left as int,
                    self.pos.right as int,
                    self.pos.match_diff as int,
                ),
            ),
            score == static_value(self.pos),
            -SCORE_MAX <= score <= SCORE_MAX,
    {
        to_points(
            evaluate_bb(
                self.pos.ai_hand,
                self.pos.human_hand,
                self.pos.left,
                self.pos.right,
                self.pos.match_diff,
            ),
        )
    }

    /// Whether a node at depth 0 is searched one ply further: while the
    /// extensions of the line are below their cap, where the side to move has
    /// one move only, or a pass is pending, or eight tiles or fewer are left
    /// and the opponent could place one tile at most.
    fn quiescence_extends(&self, is_ai: bool, num_moves: usize, ext: i32) -> (extended: bool)
        requires
            self.pos.valid(),
        ensures
            extended == self.pos.extends(is_ai, num_moves as int, ext as int),
            extended ==> ext < 18,
    {
        proof {
            lemma_hand_tiles(self.pos.ai_hand);
            lemma_hand_tiles(self.pos.human_hand);
        }
        let total_remaining: i32 = popcount(self.pos.ai_hand) + popcount(self.pos.human_hand);
        let slack: i32 = if 12 - total_remaining > 0 { 12 - total_remaining } else { 0 };
        let max_ext: i32 = 6 + slack;
        let mut extended: bool = false;
        if ext < max_ext {
            if num_moves == 1 {
                extended = true;
            } else if self.pos.cons_pass > 0 {
                extended = true;
            } else if total_remaining <= 8 {
                let opp_hand: i32 = if is_ai { self.pos.human_hand } else { self.pos.ai_hand };
                if count_moves_bb(opp_hand, self.pos.left, self.pos.right) <= 1 {
                    extended = true;
                }
            }
        }
        extended
    }
}

impl Engine {
    /// Looks the position up in the transposition table and counts the
    /// probe. Returns the stored score where it can stand for the score of
    /// the node, and the stored best move as a hint otherwise (tile -1 where
    /// the table holds nothing for the position).
    fn probe(&mut self, depth: i32, alpha: i32, beta: i32) -> (found: (Option<i32>, i8, i8))
        requires
            old(self).wf(),
            old(self).tt_probes < u32::MAX,
            old(self).tt_hits < u32::MAX,
            old(self).tt_cutoffs < u32::MAX,
            old(self).tt_hints < u32::MAX,
        ensures
            final(self).wf(),
            old(self).tallied() ==> final(self).tallied(),
            final(self).pos == old(self).pos,
            final(self).tt == old(self).tt,
            final(self).moves == old(self).moves,
            final(self).ordering == old(self).ordering,
            final(self).node_count == old(self).node_count,
            final(self).tt_probes == old(self).tt_probes + 1,
            old(self).tt_hits <= final(self).tt_hits <= old(self).tt_hits + 1,
            old(self).tt_cutoffs <= final(self).tt_cutoffs <= old(self).tt_cutoffs + 1,
            old(self).tt_hints <= final(self).tt_hints <= old(self).tt_hints + 1,
            found.0 matches Some(v) ==> -SCORE_MAX <= v <= SCORE_MAX,
            (found.0, found.1, found.2, final(self).model()) == probed(
                old(self).model(),
                depth,
                alpha,
                beta,
            ),
    {
        let tt_hit: Option<TtHit> = tt_probe(&self.tt, self.pos.hash, depth, alpha, beta);
        let mut hint_tile: i8 = -1;
        let mut hint_end: i8 = -1;
        self.tt_probes = self.tt_probes + 1;
        match tt_hit {
            Some(hit) => {
                self.tt_hits = self.tt_hits + 1;
                match hit.score {
                    Some(score) => {
                        self.tt_cutoffs = self.tt_cutoffs + 1;
                        proof {
                            lemma_slot_index(self.pos.hash);
                            let slot = self.tt.slots@[slot_index(self.pos.hash)];
                            assert(slot.flag != 0);
                            assert(score == slot.value);
                        }
                        return (Some(score), hint_tile, hint_end);
                    },
                    None => {},
                }
                hint_tile = hit.best_idx;
                hint_end = hit.best_end;
                self.tt_hints = self.tt_hints + 1;
            },
            None => {},
        }
        (None, hint_tile, hint_end)
    }

    /// Stores the result of a node for the position.
    fn store(&mut self, depth: i32, flag: u8, value: i32, best_idx: i8, best_end: i8)
        requires
            old(self).wf(),
            -SCORE_MAX <= value <= SCORE_MAX,
        ensures
            final(self).wf(),
            final(self).pos == old(self).pos,
            final(self).tt.generation == old(self).tt.generation,
            final(self).moves == old(self).moves,
            final(self).ordering == old(self).ordering,
            final(self).node_count == old(self).node_count,
            final(self).tt_probes == old(self).tt_probes,
            final(self).tt_hits == old(self).tt_hits,
            final(self).tt_cutoffs == old(self).tt_cutoffs,
            final(self).tt_hints == old(self).tt_hints,
            final(self).model() == stored(old(self).model(), depth, flag, value, best_idx, best_end),
    {
        proof {
            lemma_slot_index(self.pos.hash);
        }
        tt_store(&mut self.tt, self.pos.hash, depth, flag, value, best_idx, best_end);
    }

    /// Orders the generated moves of the ply of the position where they are
    /// more than two, and brings the hinted move to the front where there is
    /// a hint.
    fn prepare_moves(
        &mut self,
        is_ai: bool,
        depth: i32,
        num_moves: usize,
        hint_tile: i8,
        hint_end: i8,
    )
        requires
            old(self).wf(),
            old(self).pos.valid(),
            num_moves <= 28,
            old(self).moves.moves(old(self).pos.ply as int, num_moves as int) == move_list(
                old(self).pos.mover_hand(is_ai),
                old(self).pos.left as int,
                old(self).pos.right as int,
            ),
        ensures
            final(self).wf(),
            final(self).pos == old(self).pos,
            final(self).tt == old(self).tt,
            final(self).ordering == old(self).ordering,
            final(self).node_count == old(self).node_count,
            final(self).tt_probes == old(self).tt_probes,
            final(self).tt_hits == old(self).tt_hits,
            final(self).tt_cutoffs == old(self).tt_cutoffs,
            final(self).tt_hints == old(self).tt_hints,
            final(self).model() == old(self).model(),
            final(self).moves.same_but_ply(&old(self).moves, old(self).pos.ply as int),
            final(self).moves.moves(old(self).pos.ply as int, num_moves as int) == node_moves(
                old(self).model(),
                is_ai,
                depth,
                hint_tile,
                hint_end,
            ),
            final(self).moves.moves(old(self).pos.ply as int, num_moves as int).to_multiset()
                == move_list(
                old(self).pos.mover_hand(is_ai),
                old(self).pos.left as int,
                old(self).pos.right as int,
            ).to_multiset(),
            moves_legal(
                &final(self).moves,
                old(self).pos.ply as int,
                num_moves as int,
                old(self).pos.mover_hand(is_ai),
                old(self).pos.left as int,
                old(self).pos.right as int,
            ),
    {
        let ply: usize = self.pos.ply;
        let ghost my_hand = self.pos.mover_hand(is_ai);
        proof {
            lemma_hand_tiles(self.pos.ai_hand);
            lemma_hand_tiles(self.pos.human_hand);
            assert forall|k: int| 0 <= k < num_moves implies is_legal_move(
                my_hand,
                self.pos.left as int,
                self.pos.right as int,
                #[trigger] self.moves.tile_of(ply as int, k),
                self.moves.end_of(ply as int, k),
            ) by {
                let ml = move_list(my_hand, self.pos.left as int, self.pos.right as int);
                assert(self.moves.moves(ply as int, num_moves as int)[k] == ml[k]);
                assert(ml.contains(ml[k]));
                lemma_move_list_legal(
                    my_hand,
                    self.pos.left as int,
                    self.pos.right as int,
                    ml[k].0,
                    ml[k].1,
                );
            }
        }
        if num_moves > 2 {
            let ghost unordered = self.moves;
            order_moves_at_ply(
                &mut self.moves,
                &self.ordering,
                ply,
                num_moves,
                is_ai,
                depth,
                self.pos.ai_hand,
                self.pos.human_hand,
                self.pos.left,
                self.pos.right,
            );
            proof {
                lemma_moves_stay_legal(
                    &unordered,
                    &self.moves,
                    ply as int,
                    num_moves as int,
                    my_hand,
                    self.pos.left as int,
                    self.pos.right as int,
                );
            }
        }
        if hint_tile >= 0 {
            let ghost unhinted = self.moves;
            let _found: usize = self.moves.hint_to_front(ply, num_moves, hint_tile, hint_end);
            proof {
                lemma_moves_stay_legal(
                    &unhinted,
                    &self.moves,
                    ply as int,
                    num_moves as int,
                    my_hand,
                    self.pos.left as int,
                    self.pos.right as int,
                );
            }
        }
    }

    /// Minimax with alpha-beta pruning over the position of the engine, with
    /// `is_ai` to move: the engine's side maximizes, the opponent minimizes.
    ///
    /// The score and the tables after the call are those of `node`. The
    /// position is the same after the call as before it. Once the node
    /// counter reaches `NODE_LIMIT` every node returns its static evaluation
    /// at once, so the counter ends at most 28 above the limit for each unit
    /// of the position's measure.
    fn minimax_bb(&mut self, is_ai: bool, depth: i32, alpha: i32, beta: i32, ext: i32) -> (score: i32)
        requires
            old(self).ready(is_ai),
            old(self).node_count < NODE_MAX,
            0 <= depth <= MAX_ITER_DEPTH,
        ensures
            final(self).ready(is_ai),
            final(self).pos == old(self).pos,
            final(self).tt.generation == old(self).tt.generation,
            final(self).moves.same_below(&old(self).moves, old(self).pos.ply as int),
            final(self).counted_from(old(self)),
            final(self).node_count > old(self).node_count,
            old(self).node_count + 1 >= NODE_LIMIT ==> final(self).node_count == old(self).node_count
                + 1,
            old(self).node_count + 1 < NODE_LIMIT ==> final(self).node_count <= NODE_LIMIT + 28
                * old(self).pos.measure(),
            -SCORE_MAX <= score <= SCORE_MAX,
            (score, final(self).model()) == node(old(self).model(), is_ai, depth, alpha, beta, ext),
        decreases old(self).pos.measure(), 1int,
    {
        let ghost entered = self.model();
        proof {
            lemma_hand_tiles(self.pos.ai_hand);
            lemma_hand_tiles(self.pos.human_hand);
        }
        self.node_count = self.node_count + 1;
        let ghost counted = self.model();
        if self.node_count >= NODE_LIMIT {
            let score: i32 = self.static_eval();
            proof {
                assert((score, counted) == node(entered, is_ai, depth, alpha, beta, ext))
            }
            return score;
        }
        let my_hand: i32 = if is_ai { self.pos.ai_hand } else { self.pos.human_hand };
        let ply: usize = self.pos.ply;
        let num_moves: usize = generate_moves(
            &mut self.moves,
            my_hand,
            self.pos.left,
            self.pos.right,
            ply,
        );
        if num_moves == 0 {
            let new_cons_pass: i32 = self.pos.cons_pass + 1;
            if new_cons_pass >= 2 {
                let score: i32 = score_block_bb(
                    self.pos.ai_hand,
                    self.pos.human_hand,
                    self.pos.p1_who,
                    self.pos.p1_l,
                    self.pos.p1_r,
                    self.pos.p1_tile,
                    self.pos.p2_who,
                    self.pos.p2_l,
                    self.pos.p2_r,
                );
                proof {
                    assert((score, counted) == node(entered, is_ai, depth, alpha, beta, ext))
                }
                return score;
            }
            let saved: Position = self.pos;
            self.pos.make_pass(is_ai);
            let ghost passed = self.model();
            let score: i32 = self.minimax_bb(!is_ai, depth, alpha, beta, ext);
            let ghost below = self.model();
            self.pos = saved;
            proof {
                assert(passed == at(counted, saved.after_pass()));
                assert(self.model() == at(below, saved));
                assert((score, at(below, saved)) == node(entered, is_ai, depth, alpha, beta, ext))
            }
            return score;
        }
        let mut deep: i32 = depth;
        let mut extended: i32 = ext;
        if depth <= 0 {
            if self.quiescence_extends(is_ai, num_moves, ext) {
                deep = 1;
                extended = ext + 1;
            } else {
                let score: i32 = self.static_eval();
                proof {
                    assert((score, counted) == node(entered, is_ai, depth, alpha, beta, ext))
                }
                return score;
            }
        }
        let (cutoff, hint_tile, hint_end) = self.probe(deep, alpha, beta);
        let ghost after_probe = self.model();
        match cutoff {
            Some(score) => {
                proof {
                    assert((score, after_probe) == node(entered, is_ai, depth, alpha, beta, ext))
                }
                return score;
            },
            None => {},
        }
        self.prepare_moves(is_ai, deep, num_moves, hint_tile, hint_end);
        let ghost list = self.moves.moves(ply as int, num_moves as int);
        let (best, best_move_idx, best_move_end) = self.search_moves(
            is_ai,
            deep,
            alpha,
            beta,
            extended,
            num_moves,
            Ghost(list),
        );
        let ghost searched = self.model();
        let tt_flag: u8 = if best <= alpha {
            TT_UPPER
        } else if best >= beta {
            TT_LOWER
        } else {
            TT_EXACT
        };
        self.store(deep, tt_flag, best, best_move_idx, best_move_end);
        proof {
            let folded = Folded {
                best,
                best_idx: best_move_idx,
                best_end: best_move_end,
                model: searched,
            };
            assert(list == node_moves(after_probe, is_ai, deep, hint_tile, hint_end));
            assert(folded == children(
                after_probe,
                is_ai,
                deep,
                alpha,
                beta,
                extended,
                list,
                0,
                worst(is_ai),
                -1i8,
                -1i8,
            ));
            assert(tt_flag == bound_flag(best, alpha, beta));
            assert((best, self.model()) == node(entered, is_ai, depth, alpha, beta, ext))
        }
        best
    }

    /// Searches the first `num_moves` moves of the ply of the position, in
    /// their order, for the side `is_ai`: each move is made, scored and taken
    /// back. Returns the best score and the move that gave it.
    ///
    /// The result and the tables after the call are those of `children` from
    /// the first move on.
    fn search_moves(
        &mut self,
        is_ai: bool,
        depth: i32,
        alpha: i32,
        beta: i32,
        ext: i32,
        num_moves: usize,
        Ghost(list): Ghost<Seq<(int, int)>>,
    ) -> (found: (i32, i8, i8))
        requires
            old(self).ready(is_ai),
            old(self).node_count < NODE_LIMIT,
            1 <= depth <= MAX_ITER_DEPTH,
            1 <= num_moves <= 28,
            list == old(self).moves.moves(old(self).pos.ply as int, num_moves as int),
            moves_legal(
                &old(self).moves,
                old(self).pos.ply as int,
                num_moves as int,
                old(self).pos.mover_hand(is_ai),
                old(self).pos.left as int,
                old(self).pos.right as int,
            ),
        ensures
            final(self).ready(is_ai),
            final(self).pos == old(self).pos,
            final(self).tt.generation == old(self).tt.generation,
            final(self).moves.same_below(&old(self).moves, old(self).pos.ply as int),
            final(self).counted_from(old(self)),
            final(self).node_count <= NODE_LIMIT + 28 * old(self).pos.measure(),
            -SCORE_MAX <= found.0 <= SCORE_MAX,
            (Folded {
                best: found.0,
                best_idx: found.1,
                best_end: found.2,
                model: final(self).model(),
            }) == children(
                old(self).model(),
                is_ai,
                depth,
                alpha,
                beta,
                ext,
                list,
                0,
                worst(is_ai),
                -1i8,
                -1i8,
            ),
        decreases old(self).pos.measure(), 0int,
    {
        let mut alpha: i32 = alpha;
        let mut beta: i32 = beta;
        let saved: Position = self.pos;
        let ply: usize = self.pos.ply;
        let base: usize = ply * 28;
        let ghost my_hand = saved.mover_hand(is_ai);
        let ghost target = children(
            self.model(),
            is_ai,
            depth,
            alpha,
            beta,
            ext,
            list,
            0,
            worst(is_ai),
            -1i8,
            -1i8,
        );
        let mut best_move_idx: i8 = -1;
        let mut best_move_end: i8 = -1;
        let mut best: i32 = if is_ai { -SCORE_INF } else { SCORE_INF };
        let mut cut: bool = false;
        let mut i: usize = 0;
        proof {
            lemma_hand_tiles(self.pos.ai_hand);
            lemma_hand_tiles(self.pos.human_hand);
        }
        while i < num_moves && !cut
            invariant
                self.wf(),
                self.pos == saved,
                saved == old(self).pos,
                saved.valid(),
                saved.hashed(is_ai),
                my_hand == saved.mover_hand(is_ai),
                ply == saved.ply,
                base == ply * 28,
                1 <= num_moves <= 28,
                i <= num_moves,
                1 <= depth <= MAX_ITER_DEPTH,
                list.len() == num_moves,
                list == self.moves.moves(ply as int, num_moves as int),
                moves_legal(
                    &self.moves,
                    ply as int,
                    num_moves as int,
                    my_hand,
                    saved.left as int,
                    saved.right as int,
                ),
                self.moves.same_below(&old(self).moves, ply as int),
                self.tt.generation == old(self).tt.generation,
                self.counted_from(old(self)),
                old(self).counters_ok(),
                old(self).node_count < NODE_LIMIT,
                self.node_count >= old(self).node_count,
                self.node_count <= NODE_LIMIT + 28 * (saved.measure() - 1) + i,
                saved.measure() <= 113,
                saved.measure() >= 1,
                i == 0 ==> best == (if is_ai { -100000int } else { 100000int }),
                i > 0 ==> -SCORE_MAX <= best <= SCORE_MAX,
                cut ==> i > 0,
                !cut ==> children(
                    self.model(),
                    is_ai,
                    depth,
                    alpha,
                    beta,
                    ext,
                    list,
                    i as int,
                    best,
                    best_move_idx,
                    best_move_end,
                ) == target,
                cut ==> (Folded {
                    best,
                    best_idx: best_move_idx,
                    best_end: best_move_end,
                    model: self.model(),
                }) == target,
            decreases num_moves - i + (if cut { 0int } else { 1int }),
        {
            let tile: i8 = self.moves.tile[base + i];
            let end: i8 = self.moves.end[base + i];
            let ghost at_move = self.model();
            let ghost before = self.moves;
            proof {
                assert(tile == self.moves.tile_of(ply as int, i as int));
                assert(end == self.moves.end_of(ply as int, i as int));
                assert(list[i as int] == (tile as int, end as int));
                lemma_ends_after(
                    my_hand,
                    saved.left as int,
                    saved.right as int,
                    tile as int,
                    end as int,
                );
            }
            let t_idx: usize = tile as usize;
            self.pos.make_move(is_ai, t_idx, end);
            let ghost child = self.pos;
            let sc: i32 = match self.pos.terminal_after_move(is_ai) {
                Some(s) => s,
                None => self.minimax_bb(!is_ai, depth - 1, alpha, beta, ext),
            };
            self.pos = saved;
            let ghost below = self.model();
            proof {
                assert(child == saved.after_move(is_ai, tile as int, end as int));
                assert forall|k: int| 0 <= k < num_moves implies is_legal_move(
                    my_hand,
                    saved.left as int,
                    saved.right as int,
                    #[trigger] self.moves.tile_of(ply as int, k),
                    self.moves.end_of(ply as int, k),
                ) by {
                    assert(self.moves.tile@[ply * 28 + k] == before.tile@[ply * 28 + k]);
                    assert(self.moves.end@[ply * 28 + k] == before.end@[ply * 28 + k]);
                    assert(before.tile_of(ply as int, k) == self.moves.tile_of(ply as int, k));
                }
                assert(self.moves.moves(ply as int, num_moves as int) =~= list) by {
                    assert forall|k: int| 0 <= k < num_moves implies self.moves.moves(
                        ply as int,
                        num_moves as int,
                    )[k] == list[k] by {
                        assert(self.moves.tile@[ply * 28 + k] == before.tile@[ply * 28 + k]);
                        assert(self.moves.end@[ply * 28 + k] == before.end@[ply * 28 + k]);
                        assert(before.moves(ply as int, num_moves as int)[k] == list[k]);
                    }
                }
            }
            if is_ai {
                if sc > best {
                    best = sc;
                    best_move_idx = tile;
                    best_move_end = end;
                }
                if best > alpha {
                    alpha = best;
                }
            } else {
                if sc < best {
                    best = sc;
                    best_move_idx = tile;
                    best_move_end = end;
                }
                if best < beta {
                    beta = best;
                }
            }
            let ghost unrecorded = self.model();
            if beta <= alpha {
                record_killer(&mut self.ordering, depth, tile, end);
                record_history(&mut self.ordering, tile, end, depth);
                cut = true;
            }
            proof {
                let now = Folded {
                    best,
                    best_idx: best_move_idx,
                    best_end: best_move_end,
                    model: self.model(),
                };
                if cut {
                    assert(self.model() == recorded(unrecorded, depth, tile, end));
                }
                assert(unrecorded == below);
                assert(if cut {
                    now == target
                } else {
                    children(
                        self.model(),
                        is_ai,
                        depth,
                        alpha,
                        beta,
                        ext,
                        list,
                        i + 1,
                        best,
                        best_move_idx,
                        best_move_end,
                    ) == target
                })
            }
            i += 1;
        }
        proof {
            if !cut {
                assert(children(
                    self.model(),
                    is_ai,
                    depth,
                    alpha,
                    beta,
                    ext,
                    list,
                    num_moves as int,
                    best,
                    best_move_idx,
                    best_move_end,
                ) == (Folded {
                    best,
                    best_idx: best_move_idx,
                    best_end: best_move_end,
                    model: self.model(),
                }))
            }
        }
        (best, best_move_idx, best_move_end)
    }
}

/// A list that holds the moves of a list of legal moves holds legal moves.
proof fn lemma_moves_stay_legal(
    before: &MoveBuffer,
    after: &MoveBuffer,
    ply: int,
    num_moves: int,
    hand: i32,
    left: int,
    right: int,
)
    requires
        0 <= num_moves,
        moves_legal(before, ply, num_moves, hand, left, right),
        after.moves(ply, num_moves).to_multiset() == before.moves(ply, num_moves).to_multiset(),
    ensures
        moves_legal(after, ply, num_moves, hand, left, right),
{
    let a = after.moves(ply, num_moves);
    let b = before.moves(ply, num_moves);
    lemma_same_moves(a, b);
    assert forall|i: int| 0 <= i < num_moves implies is_legal_move(
        hand,
        left,
        right,
        #[trigger] after.tile_of(ply, i),
        after.end_of(ply, i),
    ) by {
        assert(a[i] == (after.tile_of(ply, i), after.end_of(ply, i)));
        assert(b.contains(a[i]));
        let k = choose|k: int| 0 <= k < b.len() && b[k] == a[i];
        assert(b[k] == (before.tile_of(ply, k), before.end_of(ply, k)));
    }
}

/// What one iteration of the root search found.
pub struct RootOutcome {
    /// The best score of the iteration; `-SCORE_INF` where no move was
    /// searched.
    pub best_score: i32,
    /// The tile of the first move with the best score; -1 where no move was
    /// searched.
    pub best_tile_idx: i8,
    /// The end of that move.
    pub best_end: i8,
    /// The iteration searched every root move below the node limit.
    pub complete: bool,
    /// The root moves that were searched, each with its score, in the order
    /// of the search.
    pub scores: Vec<(i8, i8, i32)>,
}

/// The moves of a list of scored moves.
pub open spec fn moves_of(scores: Seq<(i8, i8, i32)>) -> Seq<(int, int)> {
    Seq::new(scores.len(), |k: int| (scores[k].0 as int, scores[k].1 as int))
}

/// `(t, e, s)` is the first of the scored moves with the highest score.
pub open spec fn is_first_best(scores: Seq<(i8, i8, i32)>, t: i8, e: i8, s: i32) -> bool {
    exists|k: int|
        0 <= k < scores.len() && #[trigger] scores[k] == (t, e, s) && (forall|j: int|
            0 <= j < scores.len() ==> (#[trigger] scores[j]).2 <= s) && (forall|j: int|
            0 <= j < k ==> (#[trigger] scores[j]).2 < s)
}

/// Every scored move is a legal move of `hand` with a score of a position.
pub open spec fn scores_legal(scores: Seq<(i8, i8, i32)>, hand: i32, left: int, right: int) -> bool {
    forall|k: int|
        0 <= k < scores.len() ==> is_legal_move(
            hand,
            left,
            right,
            (#[trigger] scores[k]).0 as int,
            scores[k].1 as int,
        ) && -SCORE_MAX <= scores[k].2 <= SCORE_MAX
}

/// Every scored move that ends the game, by emptying the engine's hand or by
/// leaving neither side a move, carries the score of that end.
pub open spec fn ends_scored(scores: Seq<(i8, i8, i32)>, root: Position) -> bool {
    forall|k: int|
        0 <= k < scores.len() ==> (root.after_move(
            true,
            (#[trigger] scores[k]).0 as int,
            scores[k].1 as int,
        ).terminal_score(true) matches Some(s) ==> scores[k].2 == s)
}

/// Every legal move of the engine ends the game.
pub open spec fn all_moves_end(root: Position) -> bool {
    forall|t: int, e: int|
        is_legal_move(root.ai_hand, root.left as int, root.right as int, t, e) ==> (
        #[trigger] root.after_move(true, t, e)).terminal_score(true) is Some
}

/// The position at the root of a search: the engine's side to move at ply
/// 0, with no pass pending.
pub open spec fn root_position(
    ai_hand: i32,
    human_hand: i32,
    left: i8,
    right: i8,
    match_diff: i32,
    p1_who: i8,
    p1_l: i8,
    p1_r: i8,
    p1_tile: i8,
    p2_who: i8,
    p2_l: i8,
    p2_r: i8,
) -> Position {
    Position {
        ai_hand,
        human_hand,
        left,
        right,
        hash: root_hash(ai_hand, human_hand, left as int, right as int, true, 0),
        ply: 0,
        cons_pass: 0,
        match_diff,
        p1_who,
        p1_l,
        p1_r,
        p1_tile,
        p2_who,
        p2_l,
        p2_r,
    }
}

impl RootOutcome {
    /// The outcome with the model after the search.
    pub open spec fn folded(&self, model: SearchModel) -> RootFolded {
        RootFolded {
            best_score: self.best_score,
            best_tile_idx: self.best_tile_idx,
            best_end: self.best_end,
            complete: self.complete,
            scores: self.scores@,
            model,
        }
    }

    /// The outcome is one of a search of the moves of `hand` against the
    /// ends `left` and `right`.
    ///
    /// Without a legal move nothing was searched. With one, at least one move
    /// was searched, and the best move is the first of the searched moves
    /// with the highest score. Every searched move is legal, and a complete
    /// iteration has searched each legal move once.
    pub open spec fn is_outcome_of(&self, hand: i32, left: int, right: int) -> bool {
        let legal = move_list(hand, left, right);
        &&& scores_legal(self.scores@, hand, left, right)
        &&& legal.len() == 0 ==> self.scores@.len() == 0 && self.complete
        &&& legal.len() > 0 ==> self.scores@.len() > 0
        &&& self.scores@.len() == 0 ==> self.best_tile_idx == -1 && self.best_end == -1
            && self.best_score == -SCORE_INF
        &&& self.scores@.len() > 0 ==> is_first_best(
            self.scores@,
            self.best_tile_idx,
            self.best_end,
            self.best_score,
        )
        &&& self.complete ==> moves_of(self.scores@).to_multiset() == legal.to_multiset()
    }
}

impl Engine {
    /// The engine stands at the root of a search: on a valid position at ply
    /// 0 with the engine's side to move and no pass pending.
    spec fn at_root(&self) -> bool {
        &&& self.ready(true)
        &&& self.pos.ply == 0
        &&& self.pos.cons_pass == 0
    }

    /// Generates the root moves, orders them, and brings the best move that
    /// the transposition table holds for the root to the front.
    fn root_moves(&mut self, iter_depth: i32) -> (num_moves: usize)
        requires
            old(self).at_root(),
        ensures
            final(self).at_root(),
            final(self).pos == old(self).pos,
            final(self).tt == old(self).tt,
            final(self).ordering == old(self).ordering,
            final(self).node_count == old(self).node_count,
            final(self).tt_probes == old(self).tt_probes,
            final(self).tt_hits == old(self).tt_hits,
            final(self).tt_cutoffs == old(self).tt_cutoffs,
            final(self).tt_hints == old(self).tt_hints,
            num_moves <= 28,
            num_moves == move_list(
                old(self).pos.ai_hand,
                old(self).pos.left as int,
                old(self).pos.right as int,
            ).len(),
            final(self).moves.moves(0, num_moves as int).to_multiset() == move_list(
                old(self).pos.ai_hand,
                old(self).pos.left as int,
                old(self).pos.right as int,
            ).to_multiset(),
            moves_legal(
                &final(self).moves,
                0,
                num_moves as int,
                old(self).pos.ai_hand,
                old(self).pos.left as int,
                old(self).pos.right as int,
            ),
            final(self).moves.moves(0, num_moves as int) == root_list(old(self).model(), iter_depth),
            final(self).model() == old(self).model(),
    {
        proof {
            lemma_slot_index(self.pos.hash);
        }
        let num_moves: usize = generate_moves(
            &mut self.moves,
            self.pos.ai_hand,
            self.pos.left,
            self.pos.right,
            0,
        );
        proof {
            assert forall|k: int| 0 <= k < num_moves implies is_legal_move(
                self.pos.ai_hand,
                self.pos.left as int,
                self.pos.right as int,
                #[trigger] self.moves.tile_of(0, k),
                self.moves.end_of(0, k),
            ) by {
                let ml = move_list(self.pos.ai_hand, self.pos.left as int, self.pos.right as int);
                assert(self.moves.moves(0, num_moves as int)[k] == ml[k]);
                assert(ml.contains(ml[k]));
                lemma_move_list_legal(
                    self.pos.ai_hand,
                    self.pos.left as int,
                    self.pos.right as int,
                    ml[k].0,
                    ml[k].1,
                );
            }
        }
        if num_moves > 2 {
            let ghost unordered = self.moves;
            order_moves_at_ply(
                &mut self.moves,
                &self.ordering,
                0,
                num_moves,
                true,
                iter_depth,
                self.pos.ai_hand,
                self.pos.human_hand,
                self.pos.left,
                self.pos.right,
            );
            proof {
                lemma_moves_stay_legal(
                    &unordered,
                    &self.moves,
                    0,
                    num_moves as int,
                    self.pos.ai_hand,
                    self.pos.left as int,
                    self.pos.right as int,
                );
            }
        }
        let pv_hit: Option<TtHit> = tt_probe(&self.tt, self.pos.hash, 0, -SCORE_INF, SCORE_INF);
        match pv_hit {
            Some(hit) => {
                if hit.best_idx >= 0 {
                    let ghost unhinted = self.moves;
                    let _found: usize = self.moves.hint_to_front(
                        0,
                        num_moves,
                        hit.best_idx,
                        hit.best_end,
                    );
                    proof {
                        lemma_moves_stay_legal(
                            &unhinted,
                            &self.moves,
                            0,
                            num_moves as int,
                            self.pos.ai_hand,
                            self.pos.left as int,
                            self.pos.right as int,
                        );
                    }
                }
            },
            None => {},
        }
        num_moves
    }

    /// Searches the root moves once in the window `(alpha_w, beta_w)`: the
    /// first move in the full window, each later move in a null window above
    /// the best score so far, and again in the full window where it scores
    /// inside. A move that ends the game is scored at once. The search stops
    /// after the move during which the node counter reached its limit.
    fn search_root_moves(
        &mut self,
        num_moves: usize,
        iter_depth: i32,
        alpha_w: i32,
        beta_w: i32,
        Ghost(list): Ghost<Seq<(int, int)>>,
    ) -> (out: RootOutcome)
        requires
            old(self).at_root(),
            old(self).node_count < NODE_LIMIT,
            list == old(self).moves.moves(0, num_moves as int),
            1 <= iter_depth <= MAX_ITER_DEPTH,
            -SCORE_INF <= alpha_w <= SCORE_INF,
            num_moves <= 28,
            moves_legal(
                &old(self).moves,
                0,
                num_moves as int,
                old(self).pos.ai_hand,
                old(self).pos.left as int,
                old(self).pos.right as int,
            ),
        ensures
            final(self).at_root(),
            final(self).pos == old(self).pos,
            final(self).tt.generation == old(self).tt.generation,
            final(self).moves.same_below(&old(self).moves, 1),
            final(self).counted_from(old(self)),
            out.complete <==> final(self).node_count < NODE_LIMIT,
            all_moves_end(old(self).pos) ==> final(self).node_count == old(self).node_count,
            scores_legal(
                out.scores@,
                old(self).pos.ai_hand,
                old(self).pos.left as int,
                old(self).pos.right as int,
            ),
            ends_scored(out.scores@, old(self).pos),
            out.scores@.len() <= num_moves,
            moves_of(out.scores@) == old(self).moves.moves(0, out.scores@.len() as int),
            out.complete ==> out.scores@.len() == num_moves,
            num_moves > 0 ==> out.scores@.len() > 0,
            num_moves == 0 ==> out.complete,
            out.scores@.len() == 0 ==> out.best_tile_idx == -1 && out.best_end == -1 && out.best_score
                == -SCORE_INF,
            out.scores@.len() > 0 ==> is_first_best(
                out.scores@,
                out.best_tile_idx,
                out.best_end,
                out.best_score,
            ),
            out.folded(final(self).model()) == root_attempt(
                old(self).model(),
                list,
                iter_depth,
                alpha_w,
                beta_w,
            ),
    {
        let ghost target = root_attempt(self.model(), list, iter_depth, alpha_w, beta_w);
        let mut iter_best_score: i32 = -SCORE_INF;
        let mut iter_best_tile_idx: i8 = -1;
        let mut iter_best_end: i8 = -1;
        let mut iter_complete: bool = true;
        let mut root_scores: Vec<(i8, i8, i32)> = Vec::new();
        let mut cur_alpha: i32 = alpha_w;
        let saved: Position = self.pos;
        let ghost mut best_k: int = 0;
        proof {
            lemma_hand_tiles(self.pos.ai_hand);
            lemma_hand_tiles(self.pos.human_hand);
        }
        let mut i: usize = 0;
        while i < num_moves && iter_complete
            invariant
                self.wf(),
                self.pos == saved,
                saved == old(self).pos,
                saved.valid(),
                saved.hashed(true),
                saved.ply == 0,
                saved.cons_pass == 0,
                saved.measure() <= 113,
                i <= num_moves <= 28,
                1 <= iter_depth <= MAX_ITER_DEPTH,
                -SCORE_INF <= cur_alpha <= SCORE_INF,
                moves_legal(
                    &self.moves,
                    0,
                    num_moves as int,
                    saved.ai_hand,
                    saved.left as int,
                    saved.right as int,
                ),
                self.moves.same_below(&old(self).moves, 1),
                self.tt.generation == old(self).tt.generation,
                self.counted_from(old(self)),
                old(self).counters_ok(),
                self.node_count <= NODE_MAX,
                iter_complete <==> self.node_count < NODE_LIMIT,
                all_moves_end(saved) ==> self.node_count == old(self).node_count,
                !iter_complete ==> i > 0,
                0 <= best_k <= i,
                root_scores@.len() == i,
                scores_legal(root_scores@, saved.ai_hand, saved.left as int, saved.right as int),
                ends_scored(root_scores@, saved),
                forall|k: int|
                    0 <= k < i ==> (#[trigger] root_scores@[k]).0 == self.moves.tile_of(0, k)
                        && root_scores@[k].1 == self.moves.end_of(0, k),
                i == 0 ==> iter_best_tile_idx == -1 && iter_best_end == -1 && iter_best_score
                    == -SCORE_INF,
                i > 0 ==> 0 <= best_k < i && root_scores@[best_k] == (
                    iter_best_tile_idx,
                    iter_best_end,
                    iter_best_score,
                ),
                forall|j: int| 0 <= j < i ==> (#[trigger] root_scores@[j]).2 <= iter_best_score,
                forall|j: int| 0 <= j < best_k ==> (#[trigger] root_scores@[j]).2 < iter_best_score,
                list.len() == num_moves,
                list == self.moves.moves(0, num_moves as int),
                iter_complete ==> root_moves(
                    self.model(),
                    list,
                    i as int,
                    iter_depth,
                    cur_alpha,
                    beta_w,
                    iter_best_score,
                    iter_best_tile_idx,
                    iter_best_end,
                    root_scores@,
                ) == target,
                !iter_complete ==> (RootFolded {
                    best_score: iter_best_score,
                    best_tile_idx: iter_best_tile_idx,
                    best_end: iter_best_end,
                    complete: false,
                    scores: root_scores@,
                    model: self.model(),
                }) == target,
            decreases num_moves - i + (if iter_complete { 1int } else { 0int }),
        {
            let tile: i8 = self.moves.tile[i];
            let end: i8 = self.moves.end[i];
            proof {
                assert(tile == self.moves.tile_of(0, i as int));
                assert(end == self.moves.end_of(0, i as int));
                assert(list[i as int] == (tile as int, end as int));
                lemma_ends_after(
                    saved.ai_hand,
                    saved.left as int,
                    saved.right as int,
                    tile as int,
                    end as int,
                );
            }
            let t_idx: usize = tile as usize;
            let ghost before = self.moves;
            self.pos.make_move(true, t_idx, end);
            let ghost made = self.pos;
            proof {
                if all_moves_end(saved) {
                    let ended = saved.after_move(true, tile as int, end as int);
                    assert(ended.terminal_score(true) is Some);
                }
            }
            let score: i32 = match self.pos.terminal_after_move(true) {
                Some(s) => s,
                None => {
                    if i == 0 {
                        self.minimax_bb(false, iter_depth - 1, cur_alpha, beta_w, 0)
                    } else {
                        let mut sc: i32 = self.minimax_bb(
                            false,
                            iter_depth - 1,
                            cur_alpha,
                            cur_alpha + 1,
                            0,
                        );
                        if sc > cur_alpha && sc < beta_w {
                            sc = self.minimax_bb(false, iter_depth - 1, cur_alpha, beta_w, 0);
                        }
                        sc
                    }
                },
            };
            self.pos = saved;
            proof {
                assert forall|k: int| 0 <= k < 28 implies #[trigger] self.moves.tile_of(0, k)
                    == before.tile_of(0, k) && self.moves.end_of(0, k) == before.end_of(0, k) by {
                    assert(self.moves.tile@[0 * 28 + k] == before.tile@[0 * 28 + k]);
                    assert(self.moves.end@[0 * 28 + k] == before.end@[0 * 28 + k]);
                }
                assert forall|k: int| 0 <= k < num_moves implies is_legal_move(
                    saved.ai_hand,
                    saved.left as int,
                    saved.right as int,
                    #[trigger] self.moves.tile_of(0, k),
                    self.moves.end_of(0, k),
                ) by {
                    assert(before.tile_of(0, k) == self.moves.tile_of(0, k));
                }
                assert(self.moves.moves(0, num_moves as int) =~= list) by {
                    assert forall|k: int| 0 <= k < num_moves implies self.moves.moves(
                        0,
                        num_moves as int,
                    )[k] == list[k] by {
                        assert(before.tile_of(0, k) == self.moves.tile_of(0, k));
                        assert(before.moves(0, num_moves as int)[k] == list[k]);
                    }
                }
            }
            let ghost scored = root_scores@;
            root_scores.push((tile, end, score));
            proof {
                assert forall|k: int| 0 <= k < i + 1 implies (#[trigger] root_scores@[k]).0
                    == self.moves.tile_of(0, k) && root_scores@[k].1 == self.moves.end_of(0, k) by {
                    if k < i {
                        assert(root_scores@[k] == scored[k]);
                        assert(before.tile_of(0, k) == self.moves.tile_of(0, k));
                    }
                }
                assert forall|k: int| 0 <= k < i + 1 implies is_legal_move(
                    saved.ai_hand,
                    saved.left as int,
                    saved.right as int,
                    (#[trigger] root_scores@[k]).0 as int,
                    root_scores@[k].1 as int,
                ) && -SCORE_MAX <= root_scores@[k].2 <= SCORE_MAX by {
                    if k < i {
                        assert(root_scores@[k] == scored[k]);
                    }
                }
                assert forall|k: int| 0 <= k < i + 1 implies (saved.after_move(
                    true,
                    (#[trigger] root_scores@[k]).0 as int,
                    root_scores@[k].1 as int,
                ).terminal_score(true) matches Some(s) ==> root_scores@[k].2 == s) by {
                    if k < i {
                        assert(root_scores@[k] == scored[k]);
                    } else {
                        assert(made == saved.after_move(true, tile as int, end as int));
                    }
                }
            }
            if score > iter_best_score {
                iter_best_score = score;
                iter_best_tile_idx = tile;
                iter_best_end = end;
                proof {
                    best_k = i as int;
                }
            }
            if score > cur_alpha {
                cur_alpha = score;
            }
            proof {
                assert forall|j: int| 0 <= j < i + 1 implies (#[trigger] root_scores@[j]).2
                    <= iter_best_score by {
                    if j < i {
                        assert(root_scores@[j] == scored[j]);
                    }
                }
                assert forall|j: int| 0 <= j < best_k implies (#[trigger] root_scores@[j]).2
                    < iter_best_score by {
                    if j < i {
                        assert(root_scores@[j] == scored[j]);
                    }
                }
                if best_k < i {
                    assert(root_scores@[best_k] == scored[best_k]);
                }
            }
            if self.node_count >= NODE_LIMIT {
                iter_complete = false;
            }
            i += 1;
        }
        proof {
            assert(moves_of(root_scores@) =~= old(self).moves.moves(0, root_scores@.len() as int)) by {
                assert forall|k: int| 0 <= k < root_scores@.len() implies moves_of(root_scores@)[k]
                    == old(self).moves.moves(0, root_scores@.len() as int)[k] by {
                    assert(self.moves.tile@[0 * 28 + k] == old(self).moves.tile@[0 * 28 + k]);
                    assert(self.moves.end@[0 * 28 + k] == old(self).moves.end@[0 * 28 + k]);
                    assert(root_scores@[k].0 == self.moves.tile_of(0, k));
                }
            }
            if i > 0 {
                assert(root_scores@[best_k] == (iter_best_tile_idx, iter_best_end, iter_best_score));
            }
        }
        RootOutcome {
            best_score: iter_best_score,
            best_tile_idx: iter_best_tile_idx,
            best_end: iter_best_end,
            complete: iter_complete,
            scores: root_scores,
        }
    }
}

/// The result of a search.
pub struct SearchResult {
    /// The tile of the chosen move; -1 where no move was chosen.
    pub best_tile_idx: i8,
    /// The end of the chosen move: 0 left, 1 right; -1 where no move was
    /// chosen.
    pub best_end: i8,
    /// The best score of the deepest complete iteration.
    pub best_score: i32,
    /// The depth of the deepest complete iteration; 0 where none was
    /// complete.
    pub depth: i32,
    /// The nodes that the deepest complete iteration visited.
    pub nodes: u32,
    /// The root moves of the deepest complete iteration, each as tile, end
    /// and score.
    pub analysis: Vec<(i8, i8, i32)>,
    /// Probes of the transposition table during the search.
    pub tt_probes: u32,
    /// Probes that found the position.
    pub tt_hits: u32,
    /// Probes that gave the score of the node.
    pub tt_cutoffs: u32,
    /// Probes that gave a move to try first.
    pub tt_hints: u32,
}

/// `s` is the highest of the given scores.
pub open spec fn is_top_score(scores: Seq<(i8, i8, i32)>, s: i32) -> bool {
    &&& exists|k: int| 0 <= k < scores.len() && (#[trigger] scores[k]).2 == s
    &&& forall|j: int| 0 <= j < scores.len() ==> (#[trigger] scores[j]).2 <= s
}

impl SearchResult {
    /// The result carries the counts of probes of the engine `after`.
    pub open spec fn counts(&self, after: SearchModel) -> bool {
        &&& self.tt_probes == after.probes
        &&& self.tt_hits == after.hits
        &&& self.tt_cutoffs == after.cutoffs
        &&& self.tt_hints == after.hints
    }

    /// The result shows what the search has committed.
    pub open spec fn shows(&self, p: Progress) -> bool {
        &&& self.best_tile_idx == p.best_tile_idx
        &&& self.best_end == p.best_end
        &&& self.best_score == p.score
        &&& self.depth == p.depth
        &&& self.nodes == p.nodes
        &&& self.analysis@ == p.analysis
    }

    /// The result is one of a search for the engine's hand `ai_hand` against
    /// the ends `left` and `right`.
    ///
    /// The chosen move, where there is one, is a legal move. Without a legal
    /// move none is chosen. Where an iteration was complete a move is chosen,
    /// and the analysis holds each legal move once, with the best score as
    /// its highest. Where none was complete the score, the node count and the
    /// analysis are empty.
    pub open spec fn is_result_of(&self, ai_hand: i32, left: int, right: int) -> bool {
        let legal = move_list(ai_hand, left, right);
        &&& legal.len() == 0 ==> self.best_tile_idx == -1
        &&& self.best_tile_idx == -1 ==> self.best_end == -1 && self.depth == 0
        &&& self.best_tile_idx != -1 ==> is_legal_move(
            ai_hand,
            left,
            right,
            self.best_tile_idx as int,
            self.best_end as int,
        )
        &&& 0 <= self.depth <= MAX_ITER_DEPTH
        &&& self.depth == 0 ==> self.best_score == 0 && self.nodes == 0 && self.analysis@.len() == 0
        &&& self.depth >= 1 ==> {
            &&& self.best_tile_idx != -1
            &&& self.nodes < NODE_LIMIT
            &&& scores_legal(self.analysis@, ai_hand, left, right)
            &&& moves_of(self.analysis@).to_multiset() == legal.to_multiset()
            &&& is_top_score(self.analysis@, self.best_score)
        }
    }
}

/// The time budget of a move in tenths of a millisecond: the caller's
/// budget, or 5000 ms where that is 0, doubled while 24 tiles or more are
/// left, raised by a fifth from 18 tiles on, kept as it is from 12 tiles on,
/// and capped at 1000 ms below that.
pub open spec fn budget_tenths(total_tiles: int, time_budget: int) -> int {
    let budget = if time_budget > 0 { time_budget } else { 5000 };
    if total_tiles >= 24 {
        budget * 20
    } else if total_tiles >= 18 {
        budget * 12
    } else if total_tiles >= 12 {
        budget * 10
    } else if budget < 1000 {
        budget * 10
    } else {
        10000
    }
}

/// More than three quarters of the budget have gone by.
pub open spec fn time_is_up(elapsed_ms: int, tenths: int) -> bool {
    40 * elapsed_ms > 3 * tenths
}

/// The time budget of a move, in tenths of a millisecond (see
/// `budget_tenths`).
pub fn adaptive_budget(total_tiles: i32, time_budget: u64) -> (tenths: u128)
    ensures
        tenths == budget_tenths(total_tiles as int, time_budget as int),
        0 < tenths <= 20 * u64::MAX,
{
    let budget: u128 = if time_budget > 0 { time_budget as u128 } else { DEFAULT_BUDGET_MS as u128 };
    if total_tiles >= 24 {
        budget * 20
    } else if total_tiles >= 18 {
        budget * 12
    } else if total_tiles >= 12 {
        budget * 10
    } else if budget < 1000 {
        budget * 10
    } else {
        10000
    }
}

/// Whether the search stops for time: after `elapsed_ms` milliseconds, more
/// than three quarters of the budget of `tenths` tenths of a millisecond
/// have gone by.
pub fn out_of_time(elapsed_ms: u64, tenths: u128) -> (stop: bool)
    ensures
        stop == time_is_up(elapsed_ms as int, tenths as int),
{
    if tenths > u128::MAX / 3 {
        false
    } else {
        40 * (elapsed_ms as u128) > 3 * tenths
    }
}

/// The milliseconds from `start_ms` to `now`; 0 where the clock has gone
/// back.
pub fn elapsed_since(start_ms: u64, now: u64) -> (elapsed: u64)
    ensures
        elapsed == if now >= start_ms { now - start_ms } else { 0 },
{
    if now >= start_ms {
        now - start_ms
    } else {
        0
    }
}

/// The wall clock: std's `SystemTime::now`, as whole milliseconds since the
/// Unix epoch, and 0 for a clock set before the epoch. Nothing is claimed of
/// the reading.
#[verifier::external_body]
fn now_ms() -> u64 {
    match std::time::SystemTime::now().duration_since(std::time::UNIX_EPOCH) {
        Ok(since) => since.as_millis() as u64,
        Err(_) => 0,
    }
}

/// A search in progress: what its iterations have committed so far, and
/// when it is to stop.
pub struct SearchRun {
    root: Position,
    ai_hand: i32,
    left: i8,
    right: i8,
    total_tiles: i32,
    move_budget: u128,
    next_depth: i32,
    solved: bool,
    best_tile_idx: i8,
    best_end: i8,
    prev_score: i32,
    last_depth: i32,
    last_nodes: u32,
    committed_scores: Vec<(i8, i8, i32)>,
}

/// What one iteration of a search has found.
pub struct IterationReport {
    /// The depth of the iteration.
    pub depth: i32,
    /// The tile of the best move of the iteration; -1 without a legal move.
    pub best_tile_idx: i8,
    /// The end of the best move; -1 without a legal move.
    pub best_end: i8,
    /// The score of the best move; `-SCORE_INF` without a legal move.
    pub best_score: i32,
    /// The iteration searched every root move below the node limit.
    pub complete: bool,
    /// The nodes that the iteration visited.
    pub nodes: u32,
}

impl IterationReport {
    /// The report is that of the iteration `found`, which left the engine
    /// as `after`.
    pub open spec fn is_report_of(&self, found: RootFolded, after: SearchModel) -> bool {
        &&& self.best_tile_idx == found.best_tile_idx
        &&& self.best_end == found.best_end
        &&& self.best_score == found.best_score
        &&& self.complete == found.complete
        &&& self.nodes == found.model.nodes
        &&& after == found.model
    }
}

impl SearchRun {
    /// The position at the root of the search.
    pub closed spec fn root(&self) -> Position {
        self.root
    }

    /// The hand that the search chooses a move for.
    pub closed spec fn hand(&self) -> i32 {
        self.ai_hand
    }

    /// The left end of the board under search.
    pub closed spec fn left_end(&self) -> int {
        self.left as int
    }

    /// The right end of the board under search.
    pub closed spec fn right_end(&self) -> int {
        self.right as int
    }

    /// The time budget of the search, in tenths of a millisecond.
    pub closed spec fn budget(&self) -> int {
        self.move_budget as int
    }

    /// The depth of the next iteration.
    pub closed spec fn depth_next(&self) -> int {
        self.next_depth as int
    }

    /// The tiles in the two hands at the root.
    pub closed spec fn tiles(&self) -> int {
        self.total_tiles as int
    }

    /// What the iterations so far have committed.
    pub closed spec fn progress(&self) -> Progress {
        Progress {
            best_tile_idx: self.best_tile_idx,
            best_end: self.best_end,
            score: self.prev_score,
            depth: self.last_depth,
            nodes: self.last_nodes as int,
            analysis: self.committed_scores@,
            solved: self.solved,
        }
    }

    /// The search has iterations left: it has not reached the deepest
    /// iteration, nor solved the game.
    pub open spec fn unfinished(&self) -> bool {
        self.depth_next() <= MAX_ITER_DEPTH && !self.progress().solved
    }

    /// What the iterations below `depth_next` have committed: no move while
    /// there is no legal move; a legal move where there is one; and with a
    /// complete iteration its depth, its nodes, its scored moves and their
    /// best score.
    spec fn consistent(&self) -> bool {
        let legal = move_list(self.ai_hand, self.left as int, self.right as int);
        &&& legal.len() == 0 ==> self.best_tile_idx == -1
        &&& self.best_tile_idx == -1 ==> self.best_end == -1 && self.last_depth == 0
        &&& self.best_tile_idx != -1 ==> is_legal_move(
            self.ai_hand,
            self.left as int,
            self.right as int,
            self.best_tile_idx as int,
            self.best_end as int,
        )
        &&& 0 <= self.last_depth < self.next_depth
        &&& all_moves_end(self.root) && legal.len() > 0 && self.next_depth > 1 ==> self.last_depth >= 1
        &&& -SCORE_MAX <= self.prev_score <= SCORE_MAX
        &&& self.last_depth == 0 ==> self.prev_score == 0 && self.last_nodes == 0
            && self.committed_scores@.len() == 0
        &&& self.last_depth >= 1 ==> {
            &&& self.best_tile_idx != -1
            &&& self.last_nodes < NODE_LIMIT
            &&& scores_legal(
                self.committed_scores@,
                self.ai_hand,
                self.left as int,
                self.right as int,
            )
            &&& moves_of(self.committed_scores@).to_multiset() == legal.to_multiset()
            &&& is_top_score(self.committed_scores@, self.prev_score)
            &&& ends_scored(self.committed_scores@, self.root)
        }
    }

    /// The run is the search that `engine` is in: the engine stands on the
    /// root position of the run, and the run holds what the iterations so
    /// far have committed.
    pub closed spec fn is_run_of(&self, engine: &Engine) -> bool {
        &&& engine.wf()
        &&& engine.pos.valid()
        &&& engine.pos.hashed(true)
        &&& engine.pos.ply == 0
        &&& engine.pos.cons_pass == 0
        &&& engine.pos == self.root
        &&& engine.pos.ai_hand == self.ai_hand
        &&& engine.pos.left == self.left
        &&& engine.pos.right == self.right
        &&& 1 <= self.next_depth <= MAX_ITER_DEPTH + 1
        &&& engine.tallied()
        &&& engine.tt_probes <= (self.next_depth - 1) * NODE_MAX
        &&& engine.tt_hits <= (self.next_depth - 1) * NODE_MAX
        &&& engine.tt_cutoffs <= (self.next_depth - 1) * NODE_MAX
        &&& engine.tt_hints <= (self.next_depth - 1) * NODE_MAX
        &&& 0 < self.move_budget <= 20 * u64::MAX
        &&& self.consistent()
    }

    /// Whether the search has iterations left.
    pub fn is_open(&self) -> (more: bool)
        ensures
            more == self.unfinished(),
    {
        self.next_depth <= MAX_ITER_DEPTH && !self.solved
    }

    /// Takes the outcome of the iteration to `next_depth` in. A complete
    /// iteration is committed whole, and solves the game where it is at
    /// least as deep as the tiles left. Of an iteration that the node limit
    /// cut short only the move is taken, and only where it is the move chosen
    /// so far or scores above 500.
    fn commit(&mut self, out: RootOutcome, nodes: u32, Ghost(after): Ghost<SearchModel>)
        requires
            nodes == after.nodes,
            old(self).consistent(),
            1 <= old(self).next_depth <= MAX_ITER_DEPTH,
            out.is_outcome_of(old(self).ai_hand, old(self).left as int, old(self).right as int),
            ends_scored(out.scores@, old(self).root),
            all_moves_end(old(self).root) ==> out.complete,
            out.complete ==> nodes < NODE_LIMIT,
        ensures
            final(self).consistent(),
            final(self).root == old(self).root,
            final(self).next_depth == old(self).next_depth + 1,
            final(self).ai_hand == old(self).ai_hand,
            final(self).left == old(self).left,
            final(self).right == old(self).right,
            final(self).move_budget == old(self).move_budget,
            final(self).total_tiles == old(self).total_tiles,
            final(self).progress() == committed(
                old(self).progress(),
                out.folded(after),
                old(self).next_depth,
                old(self).total_tiles as int,
            ),
    {
        proof {
            lemma_best_of_outcome(&out, self.ai_hand, self.left as int, self.right as int);
        }
        let iter_depth: i32 = self.next_depth;
        if out.complete && nodes < NODE_LIMIT && iter_depth >= self.total_tiles {
            self.solved = true;
        }
        if out.best_tile_idx >= 0 {
            if out.complete {
                self.best_tile_idx = out.best_tile_idx;
                self.best_end = out.best_end;
                self.prev_score = out.best_score;
                self.last_depth = iter_depth;
                self.last_nodes = nodes;
                self.committed_scores = out.scores;
            } else if out.best_tile_idx == self.best_tile_idx || out.best_score > 500 {
                self.best_tile_idx = out.best_tile_idx;
                self.best_end = out.best_end;
            }
        }
        self.next_depth = iter_depth + 1;
    }
}

impl Engine {
    /// One iteration of the root search, to `iter_depth`: the root moves are
    /// generated and ordered, and searched in an aspiration window round
    /// `prev_score` (30 points to either side, 15 from depth 6 on, the full
    /// window at depth 1). Where a complete search ends at or beyond a side
    /// of the window, that side is opened and the root moves are searched
    /// again, three times at most.
    fn search_iteration(&mut self, iter_depth: i32, prev_score: i32) -> (out: RootOutcome)
        requires
            old(self).wf(),
            old(self).pos.valid(),
            old(self).pos.hashed(true),
            old(self).pos.ply == 0,
            old(self).pos.cons_pass == 0,
            old(self).tallied(),
            old(self).tt_probes <= 49 * NODE_MAX,
            old(self).tt_hits <= 49 * NODE_MAX,
            old(self).tt_cutoffs <= 49 * NODE_MAX,
            old(self).tt_hints <= 49 * NODE_MAX,
            1 <= iter_depth <= MAX_ITER_DEPTH,
            -SCORE_MAX <= prev_score <= SCORE_MAX,
        ensures
            final(self).at_root(),
            final(self).pos == old(self).pos,
            final(self).tt.generation == old(self).tt.generation,
            old(self).tt_probes <= final(self).tt_probes <= old(self).tt_probes + NODE_MAX,
            old(self).tt_hits <= final(self).tt_hits <= old(self).tt_hits + NODE_MAX,
            old(self).tt_cutoffs <= final(self).tt_cutoffs <= old(self).tt_cutoffs + NODE_MAX,
            old(self).tt_hints <= final(self).tt_hints <= old(self).tt_hints + NODE_MAX,
            out.complete <==> final(self).node_count < NODE_LIMIT,
            out.is_outcome_of(
                old(self).pos.ai_hand,
                old(self).pos.left as int,
                old(self).pos.right as int,
            ),
            ends_scored(out.scores@, old(self).pos),
            all_moves_end(old(self).pos) ==> out.complete,
            out.folded(final(self).model()) == root_attempts(
                fresh(old(self).model()),
                root_list(fresh(old(self).model()), iter_depth),
                iter_depth,
                aspiration_window(iter_depth, prev_score).0,
                aspiration_window(iter_depth, prev_score).1,
                3,
            ),
    {
        self.node_count = 0;
        let ghost start = *self;
        let num_moves: usize = self.root_moves(iter_depth);
        let ghost ordered = self.moves;
        let asp_window: i32 = if iter_depth >= 6 { 15 } else { 30 };
        let mut alpha_w: i32 = -SCORE_INF;
        let mut beta_w: i32 = SCORE_INF;
        if iter_depth > 1 {
            alpha_w = prev_score - asp_window;
            beta_w = prev_score + asp_window;
        }
        let ghost list = self.moves.moves(0, num_moves as int);
        let ghost target = root_attempts(self.model(), list, iter_depth, alpha_w, beta_w, 3);
        let ghost mut tried = self.model();
        let mut out: RootOutcome = self.search_root_moves(
            num_moves,
            iter_depth,
            alpha_w,
            beta_w,
            Ghost(list),
        );
        let mut attempts: usize = 1;
        while attempts < 3 && out.complete && (out.best_score <= alpha_w || out.best_score >= beta_w)
            invariant
                self.at_root(),
                self.pos == start.pos,
                start.pos == old(self).pos,
                start.node_count == 0,
                start.tt_probes == old(self).tt_probes,
                start.tt_hits == old(self).tt_hits,
                start.tt_cutoffs == old(self).tt_cutoffs,
                start.tt_hints == old(self).tt_hints,
                self.tt.generation == old(self).tt.generation,
                self.counted_from(&start),
                self.moves.same_below(&ordered, 1),
                1 <= attempts <= 3,
                1 <= iter_depth <= MAX_ITER_DEPTH,
                -SCORE_INF <= alpha_w <= SCORE_INF,
                num_moves <= 28,
                num_moves == move_list(
                    start.pos.ai_hand,
                    start.pos.left as int,
                    start.pos.right as int,
                ).len(),
                moves_legal(
                    &ordered,
                    0,
                    num_moves as int,
                    start.pos.ai_hand,
                    start.pos.left as int,
                    start.pos.right as int,
                ),
                ordered.moves(0, num_moves as int).to_multiset() == move_list(
                    start.pos.ai_hand,
                    start.pos.left as int,
                    start.pos.right as int,
                ).to_multiset(),
                out.complete <==> self.node_count < NODE_LIMIT,
                scores_legal(
                    out.scores@,
                    start.pos.ai_hand,
                    start.pos.left as int,
                    start.pos.right as int,
                ),
                ends_scored(out.scores@, start.pos),
                all_moves_end(start.pos) ==> self.node_count == 0,
                out.scores@.len() <= num_moves,
                moves_of(out.scores@) == ordered.moves(0, out.scores@.len() as int),
                out.complete ==> out.scores@.len() == num_moves,
                num_moves > 0 ==> out.scores@.len() > 0,
                num_moves == 0 ==> out.complete,
                out.scores@.len() == 0 ==> out.best_tile_idx == -1 && out.best_end == -1
                    && out.best_score == -SCORE_INF,
                out.scores@.len() > 0 ==> is_first_best(
                    out.scores@,
                    out.best_tile_idx,
                    out.best_end,
                    out.best_score,
                ),
                list == ordered.moves(0, num_moves as int),
                -SCORE_INF <= beta_w <= SCORE_INF,
                out.folded(self.model()) == root_attempt(tried, list, iter_depth, alpha_w, beta_w),
                target == root_attempts(tried, list, iter_depth, alpha_w, beta_w, 4 - attempts),
            decreases 3 - attempts,
        {
            if out.best_score <= alpha_w {
                alpha_w = -SCORE_INF;
            } else {
                beta_w = SCORE_INF;
            }
            let ghost before = self.moves;
            proof {
                lemma_ply_zero_kept(&before, &ordered, num_moves as int);
                assert(moves_legal(
                    &before,
                    0,
                    num_moves as int,
                    start.pos.ai_hand,
                    start.pos.left as int,
                    start.pos.right as int,
                )) by {
                    assert forall|k: int| 0 <= k < num_moves implies is_legal_move(
                        start.pos.ai_hand,
                        start.pos.left as int,
                        start.pos.right as int,
                        #[trigger] before.tile_of(0, k),
                        before.end_of(0, k),
                    ) by {
                        assert(before.tile_of(0, k) == ordered.tile_of(0, k));
                        assert(before.end_of(0, k) == ordered.end_of(0, k));
                    }
                }
            }
            proof {
                tried = self.model();
                assert(before.moves(0, num_moves as int) == list);
            }
            out = self.search_root_moves(num_moves, iter_depth, alpha_w, beta_w, Ghost(list));
            proof {
                lemma_ply_zero_kept(&before, &ordered, out.scores@.len() as int);
            }
            attempts += 1;
        }
        proof {
            if out.complete {
                assert(moves_of(out.scores@) == ordered.moves(0, num_moves as int));
            }
        }
        out
    }
}

impl Engine {
    /// One iteration of the root search (see `search_iteration`), with its
    /// best move stored for the root as exact where the iteration was complete
    /// and found a move. The outcome and the tables after the call are those
    /// of `iteration`.
    fn iterate(&mut self, iter_depth: i32, prev_score: i32) -> (out: RootOutcome)
        requires
            old(self).wf(),
            old(self).pos.valid(),
            old(self).pos.hashed(true),
            old(self).pos.ply == 0,
            old(self).pos.cons_pass == 0,
            old(self).tallied(),
            old(self).tt_probes <= 49 * NODE_MAX,
            old(self).tt_hits <= 49 * NODE_MAX,
            old(self).tt_cutoffs <= 49 * NODE_MAX,
            old(self).tt_hints <= 49 * NODE_MAX,
            1 <= iter_depth <= MAX_ITER_DEPTH,
            -SCORE_MAX <= prev_score <= SCORE_MAX,
        ensures
            final(self).at_root(),
            final(self).pos == old(self).pos,
            final(self).tt.generation == old(self).tt.generation,
            old(self).tt_probes <= final(self).tt_probes <= old(self).tt_probes + NODE_MAX,
            old(self).tt_hits <= final(self).tt_hits <= old(self).tt_hits + NODE_MAX,
            old(self).tt_cutoffs <= final(self).tt_cutoffs <= old(self).tt_cutoffs + NODE_MAX,
            old(self).tt_hints <= final(self).tt_hints <= old(self).tt_hints + NODE_MAX,
            out.complete <==> final(self).node_count < NODE_LIMIT,
            out.is_outcome_of(
                old(self).pos.ai_hand,
                old(self).pos.left as int,
                old(self).pos.right as int,
            ),
            ends_scored(out.scores@, old(self).pos),
            all_moves_end(old(self).pos) ==> out.complete,
            out.folded(final(self).model()) == iteration(old(self).model(), iter_depth, prev_score),
    {
        let out: RootOutcome = self.search_iteration(iter_depth, prev_score);
        let ghost searched_model = self.model();
        proof {
            lemma_best_of_outcome(
                &out,
                self.pos.ai_hand,
                self.pos.left as int,
                self.pos.right as int,
            );
        }
        if out.complete && out.best_tile_idx >= 0 {
            self.store(iter_depth, TT_EXACT, out.best_score, out.best_tile_idx, out.best_end);
        }
        proof {
            let found = iteration(old(self).model(), iter_depth, prev_score);
            assert(out.folded(self.model()) == found) by {
                reveal(iteration);
            }
        }
        out
    }
}

/// A buffer whose ply 0 is that of another holds the same root moves.
proof fn lemma_ply_zero_kept(buf: &MoveBuffer, other: &MoveBuffer, n: int)
    requires
        buf.same_below(other, 1),
        0 <= n <= 28,
    ensures
        buf.moves(0, n) == other.moves(0, n),
        forall|k: int| 0 <= k < 28 ==> #[trigger] buf.tile_of(0, k) == other.tile_of(0, k),
        forall|k: int| 0 <= k < 28 ==> #[trigger] buf.end_of(0, k) == other.end_of(0, k),
{
    assert forall|k: int| 0 <= k < 28 implies #[trigger] buf.tile_of(0, k) == other.tile_of(0, k) by {
        assert(buf.tile@[0 * 28 + k] == other.tile@[0 * 28 + k]);
    }
    assert forall|k: int| 0 <= k < 28 implies #[trigger] buf.end_of(0, k) == other.end_of(0, k) by {
        assert(buf.end@[0 * 28 + k] == other.end@[0 * 28 + k]);
    }
    assert(buf.moves(0, n) =~= other.moves(0, n));
}

/// The last tile of the engine's hand ends the game wherever it is placed,
/// with the pip count of the opponent's hand as the score.
pub proof fn lemma_last_tile_ends(root: Position)
    requires
        root.valid(),
        hand_tiles(root.ai_hand).len() == 1,
    ensures
        all_moves_end(root),
        forall|t: int, e: int|
            is_legal_move(root.ai_hand, root.left as int, root.right as int, t, e) ==> (
            #[trigger] root.after_move(true, t, e)).terminal_score(true) == Some(
                domino_score(true, root.human_hand),
            ),
{
    assert forall|t: int, e: int|
        is_legal_move(root.ai_hand, root.left as int, root.right as int, t, e) implies (
    #[trigger] root.after_move(true, t, e)).terminal_score(true) == Some(
        domino_score(true, root.human_hand),
    ) by {
        lemma_toggle_count(root.ai_hand, t);
        lemma_hand_tiles(root.ai_hand ^ (1i32 << (t as u32)));
    }
}

/// Domino in one: a search for the last tile of the engine's hand that has
/// completed an iteration chooses a legal move, and its best score is the
/// pip count of the opponent's hand.
pub proof fn lemma_domino_in_one(result: &SearchResult, root: Position)
    requires
        root.valid(),
        hand_tiles(root.ai_hand).len() == 1,
        result.is_result_of(root.ai_hand, root.left as int, root.right as int),
        result.depth >= 1,
        ends_scored(result.analysis@, root),
    ensures
        is_legal_move(
            root.ai_hand,
            root.left as int,
            root.right as int,
            result.best_tile_idx as int,
            result.best_end as int,
        ),
        result.best_score == domino_score(true, root.human_hand),
{
    lemma_last_tile_ends(root);
    let scores = result.analysis@;
    let k = choose|k: int| 0 <= k < scores.len() && (#[trigger] scores[k]).2 == result.best_score;
    assert(is_legal_move(
        root.ai_hand,
        root.left as int,
        root.right as int,
        scores[k].0 as int,
        scores[k].1 as int,
    ));
    assert(root.after_move(true, scores[k].0 as int, scores[k].1 as int).terminal_score(true)
        == Some(domino_score(true, root.human_hand)));
}

/// The best move of an outcome with a searched move is a legal move with a
/// score of a position.
proof fn lemma_best_of_outcome(out: &RootOutcome, hand: i32, left: int, right: int)
    requires
        out.is_outcome_of(hand, left, right),
    ensures
        out.best_tile_idx >= 0 <==> out.scores@.len() > 0,
        out.best_tile_idx >= 0 <==> move_list(hand, left, right).len() > 0,
        out.best_tile_idx >= 0 ==> is_legal_move(
            hand,
            left,
            right,
            out.best_tile_idx as int,
            out.best_end as int,
        ) && -SCORE_MAX <= out.best_score <= SCORE_MAX && is_top_score(out.scores@, out.best_score),
{
    if out.scores@.len() > 0 {
        let k = choose|k: int|
            0 <= k < out.scores@.len() && #[trigger] out.scores@[k] == (
                out.best_tile_idx,
                out.best_end,
                out.best_score,
            ) && (forall|j: int|
                0 <= j < out.scores@.len() ==> (#[trigger] out.scores@[j]).2 <= out.best_score)
                && (forall|j: int| 0 <= j < k ==> (#[trigger] out.scores@[j]).2 < out.best_score);
        assert(out.scores@[k].2 == out.best_score);
        assert(is_legal_move(hand, left, right, out.scores@[k].0 as int, out.scores@[k].1 as int));
    }
}

/// The search from the model `start` has stopped after `n` iterations, none
/// of the iterations before the last having solved the game, with the result
/// `result` and the engine as `after`.
pub open spec fn stopped_after(
    start: SearchModel,
    tiles: int,
    n: nat,
    result: &SearchResult,
    after: SearchModel,
) -> bool {
    &&& result.shows(searched(start, tiles, n).1)
    &&& result.counts(after)
    &&& after == searched(start, tiles, n).0
    &&& forall|k: nat| 1 <= k < n ==> !(#[trigger] searched(start, tiles, k)).1.solved
}

/// Sets a search up: the engine takes the position, a new generation of the
/// transposition table begins, the killers, the history scores and the
/// counters are cleared, and the time budget is fixed by the tiles left.
///
/// The arguments are those of `choose_move`.
pub fn begin_search(
    engine: &mut Engine,
    ai_hand: i32,
    human_hand: i32,
    left: i8,
    right: i8,
    cons_pass: i32,
    match_diff: i32,
    p1_who: i8,
    p1_l: i8,
    p1_r: i8,
    p1_tile: i8,
    p2_who: i8,
    p2_l: i8,
    p2_r: i8,
    time_budget: u64,
) -> (run: SearchRun)
    requires
        old(engine).wf(),
        valid_hand(ai_hand),
        valid_hand(human_hand),
        valid_board(left as int, right as int),
        valid_placements(
            p1_who as int,
            p1_l as int,
            p1_r as int,
            p1_tile as int,
            p2_who as int,
            p2_l as int,
            p2_r as int,
        ),
    ensures
        run.is_run_of(final(engine)),
        final(engine).generation() == (old(engine).generation() + 1) % 256,
        final(engine).ordering_cleared(),
        final(engine).model() == begun(old(engine).model(), run.root()),
        run.root() == root_position(
            ai_hand,
            human_hand,
            left,
            right,
            match_diff,
            p1_who,
            p1_l,
            p1_r,
            p1_tile,
            p2_who,
            p2_l,
            p2_r,
        ),
        run.hand() == ai_hand,
        run.left_end() == left,
        run.right_end() == right,
        run.budget() == budget_tenths(tiles_left(ai_hand, human_hand), time_budget as int),
        run.tiles() == tiles_left(ai_hand, human_hand),
        run.depth_next() == 1,
        run.unfinished(),
        run.progress() == no_progress(),
{
    proof {
        lemma_hand_tiles(ai_hand);
        lemma_hand_tiles(human_hand);
    }
    engine.pos = Position {
        ai_hand,
        human_hand,
        left,
        right,
        hash: compute_root_hash(ai_hand, human_hand, left, right, true, 0),
        ply: 0,
        cons_pass: 0,
        match_diff,
        p1_who,
        p1_l,
        p1_r,
        p1_tile,
        p2_who,
        p2_l,
        p2_r,
    };
    let total_tiles: i32 = popcount(ai_hand) + popcount(human_hand);
    tt_new_generation(&mut engine.tt);
    clear_move_ordering_data(&mut engine.ordering);
    engine.tt_probes = 0;
    engine.tt_hits = 0;
    engine.tt_cutoffs = 0;
    engine.tt_hints = 0;
    proof {
        let m = engine.model();
        let b = begun(old(engine).model(), engine.pos);
        assert(m.killer_tile =~= b.killer_tile);
        assert(m.killer_end =~= b.killer_end);
        assert(m.history =~= b.history);
    }
    SearchRun {
        root: engine.pos,
        ai_hand,
        left,
        right,
        total_tiles,
        move_budget: adaptive_budget(total_tiles, time_budget),
        next_depth: 1,
        solved: false,
        best_tile_idx: -1,
        best_end: -1,
        prev_score: 0,
        last_depth: 0,
        last_nodes: 0,
        committed_scores: Vec::new(),
    }
}

/// Runs the next iteration of a search and commits its outcome.
///
/// The report and the engine after the call are those of `iteration`, and
/// the run takes the iteration in as `committed` says. The iteration reports
/// a best move exactly when the hand has a legal move, and that move is
/// legal. The result of the search follows a complete iteration; of one that
/// the node limit cut short it takes the move only, and only where it is the
/// move chosen so far or scores above 500. A complete iteration at least as
/// deep as the tiles left closes the search.
pub fn run_iteration(engine: &mut Engine, run: &mut SearchRun) -> (report: IterationReport)
    requires
        old(run).is_run_of(old(engine)),
        old(run).unfinished(),
    ensures
        final(run).is_run_of(final(engine)),
        final(engine).generation() == old(engine).generation(),
        report.is_report_of(
            iteration(old(engine).model(), report.depth, old(run).progress().score),
            final(engine).model(),
        ),
        final(run).progress() == committed(
            old(run).progress(),
            iteration(old(engine).model(), report.depth, old(run).progress().score),
            report.depth,
            old(run).tiles(),
        ),
        final(run).root() == old(run).root(),
        final(run).budget() == old(run).budget(),
        final(run).tiles() == old(run).tiles(),
        final(run).depth_next() == old(run).depth_next() + 1,
        final(run).hand() == old(run).hand(),
        final(run).left_end() == old(run).left_end(),
        final(run).right_end() == old(run).right_end(),
        report.depth == old(run).depth_next(),
        report.best_tile_idx == -1 <==> move_list(
            old(run).hand(),
            old(run).left_end(),
            old(run).right_end(),
        ).len() == 0,
        report.best_tile_idx != -1 ==> is_legal_move(
            old(run).hand(),
            old(run).left_end(),
            old(run).right_end(),
            report.best_tile_idx as int,
            report.best_end as int,
        ) && -SCORE_MAX <= report.best_score <= SCORE_MAX,
        report.best_tile_idx == -1 ==> report.best_end == -1 && report.best_score == -SCORE_INF
            && report.complete,
        report.complete <==> report.nodes < NODE_LIMIT,
{
    let iter_depth: i32 = run.next_depth;
    let out: RootOutcome = engine.iterate(iter_depth, run.prev_score);
    proof {
        lemma_best_of_outcome(&out, run.ai_hand, run.left as int, run.right as int);
    }
    let nodes: u32 = engine.node_count;
    let report = IterationReport {
        depth: iter_depth,
        best_tile_idx: out.best_tile_idx,
        best_end: out.best_end,
        best_score: out.best_score,
        complete: out.complete,
        nodes,
    };
    run.commit(out, nodes, Ghost(engine.model()));
    report
}

/// Whether a search stops for time after `elapsed_ms` milliseconds: when
/// more than three quarters of its budget have gone by.
pub fn time_to_stop(run: &SearchRun, elapsed_ms: u64) -> (stop: bool)
    ensures
        stop == time_is_up(elapsed_ms as int, run.budget()),
{
    out_of_time(elapsed_ms, run.move_budget)
}

/// The result of a search, after the iterations that were run.
pub fn finish_search(engine: &Engine, run: SearchRun) -> (result: SearchResult)
    requires
        run.is_run_of(engine),
    ensures
        result.is_result_of(run.hand(), run.left_end(), run.right_end()),
        result.shows(run.progress()),
        result.counts(engine.model()),
        result.depth < run.depth_next(),
        result.depth >= 1 ==> ends_scored(result.analysis@, run.root()),
        all_moves_end(run.root()) && run.depth_next() > 1 && move_list(
            run.hand(),
            run.left_end(),
            run.right_end(),
        ).len() > 0 ==> result.depth >= 1,
        result.tt_hits <= result.tt_probes <= 50 * NODE_MAX,
        result.tt_cutoffs + result.tt_hints == result.tt_hits,
{
    SearchResult {
        best_tile_idx: run.best_tile_idx,
        best_end: run.best_end,
        best_score: run.prev_score,
        depth: run.last_depth,
        nodes: run.last_nodes,
        analysis: run.committed_scores,
        tt_probes: engine.tt_probes,
        tt_hits: engine.tt_hits,
        tt_cutoffs: engine.tt_cutoffs,
        tt_hints: engine.tt_hints,
    }
}

/// Searches for the engine's best move by iterative deepening, within a
/// time budget read off the wall clock.
///
/// `ai_hand` and `human_hand` are the two hands, `left` and `right` the open
/// ends (both 7 on the empty board), `match_diff` the engine's match score
/// less the opponent's. `p1_*` is the record of the last placement: who
/// placed (1 the engine, 0 the opponent, -1 nobody), the ends after it, and
/// the tile; `p2_*` is the record of the placement before. `time_budget` is
/// in milliseconds, 0 for the default of 5000. `cons_pass` is not read: the
/// engine is about to move, and the root is searched with no pass pending.
///
/// Iterations run from depth 1 to depth 50. The search ends after a complete
/// iteration at least as deep as the tiles left, or once three quarters of
/// the adaptive time budget have gone by at the end of an iteration. The
/// result is that of the deepest complete iteration; of an iteration that
/// the node limit cut short only the move is taken, where it is the move
/// chosen so far or scores above 500.
///
/// How many iterations are run is for the clock to say. For that number the
/// result and the engine after the call are those of `searched`.
pub fn choose_move(
    engine: &mut Engine,
    ai_hand: i32,
    human_hand: i32,
    left: i8,
    right: i8,
    cons_pass: i32,
    match_diff: i32,
    p1_who: i8,
    p1_l: i8,
    p1_r: i8,
    p1_tile: i8,
    p2_who: i8,
    p2_l: i8,
    p2_r: i8,
    time_budget: u64,
) -> (result: SearchResult)
    requires
        old(engine).wf(),
        valid_hand(ai_hand),
        valid_hand(human_hand),
        valid_board(left as int, right as int),
        valid_placements(
            p1_who as int,
            p1_l as int,
            p1_r as int,
            p1_tile as int,
            p2_who as int,
            p2_l as int,
            p2_r as int,
        ),
    ensures
        final(engine).wf(),
        final(engine).generation() == (old(engine).generation() + 1) % 256,
        result.is_result_of(ai_hand, left as int, right as int),
        result.depth >= 1 ==> ends_scored(
            result.analysis@,
            root_position(
                ai_hand,
                human_hand,
                left,
                right,
                match_diff,
                p1_who,
                p1_l,
                p1_r,
                p1_tile,
                p2_who,
                p2_l,
                p2_r,
            ),
        ),
        all_moves_end(
            root_position(
                ai_hand,
                human_hand,
                left,
                right,
                match_diff,
                p1_who,
                p1_l,
                p1_r,
                p1_tile,
                p2_who,
                p2_l,
                p2_r,
            ),
        ) && move_list(ai_hand, left as int, right as int).len() > 0 ==> result.depth >= 1,
        result.tt_hits <= result.tt_probes <= 50 * NODE_MAX,
        result.tt_cutoffs + result.tt_hints == result.tt_hits,
        exists|n: nat|
            1 <= n <= MAX_ITER_DEPTH && stopped_after(
                begun(
                    old(engine).model(),
                    root_position(
                        ai_hand,
                        human_hand,
                        left,
                        right,
                        match_diff,
                        p1_who,
                        p1_l,
                        p1_r,
                        p1_tile,
                        p2_who,
                        p2_l,
                        p2_r,
                    ),
                ),
                tiles_left(ai_hand, human_hand),
                n,
                &result,
                final(engine).model(),
            ),
{
    let ghost start = begun(
        engine.model(),
        root_position(
            ai_hand,
            human_hand,
            left,
            right,
            match_diff,
            p1_who,
            p1_l,
            p1_r,
            p1_tile,
            p2_who,
            p2_l,
            p2_r,
        ),
    );
    let ghost tiles = tiles_left(ai_hand, human_hand);
    let mut run: SearchRun = begin_search(
        engine,
        ai_hand,
        human_hand,
        left,
        right,
        cons_pass,
        match_diff,
        p1_who,
        p1_l,
        p1_r,
        p1_tile,
        p2_who,
        p2_l,
        p2_r,
        time_budget,
    );
    let time_start: u64 = now_ms();
    let mut stop: bool = false;
    proof {
        assert(searched(start, tiles, 0) == (start, no_progress())) by {
            reveal(searched);
        }
    }
    while run.is_open() && !stop
        invariant
            run.is_run_of(engine),
            engine.generation() == (old(engine).generation() + 1) % 256,
            run.root() == root_position(
                ai_hand,
                human_hand,
                left,
                right,
                match_diff,
                p1_who,
                p1_l,
                p1_r,
                p1_tile,
                p2_who,
                p2_l,
                p2_r,
            ),
            run.hand() == ai_hand,
            run.left_end() == left,
            run.right_end() == right,
            run.depth_next() >= 1,
            run.depth_next() == 1 ==> run.unfinished() && !stop,
            run.tiles() == tiles,
            (engine.model(), run.progress()) == searched(start, tiles, (run.depth_next() - 1) as nat),
            forall|k: nat|
                1 <= k < run.depth_next() - 1 ==> !(#[trigger] searched(start, tiles, k)).1.solved,
        decreases MAX_ITER_DEPTH + 1 - run.depth_next() + (if stop { 0int } else { 1int }),
    {
        let ghost done = (run.depth_next() - 1) as nat;
        let ghost before = (engine.model(), run.progress());
        let _report: IterationReport = run_iteration(engine, &mut run);
        proof {
            let found = iteration(before.0, (done + 1) as i32, before.1.score);
            assert(searched(start, tiles, (done + 1) as nat) == (
                found.model,
                committed(before.1, found, (done + 1) as i32, tiles),
            )) by {
                reveal(searched);
            }
        }
        if run.is_open() {
            let elapsed: u64 = elapsed_since(time_start, now_ms());
            stop = time_to_stop(&run, elapsed);
        }
    }
    let ghost n = (run.depth_next() - 1) as nat;
    let result = finish_search(engine, run);
    proof {
        assert(stopped_after(start, tiles, n, &result, engine.model()));
    }
    result
}

} // verus!
