//! The search as a function on values.
//!
//! The engine searches in place: it makes a move on its one position,
//! searches on, and takes the move back. What it computes is said here
//! without a place: each node takes a model of the engine, the position and
//! the tables as values, and gives its score and the model after it. The
//! functions follow the search step by step, so that the engine can be held
//! to them node by node.
use vstd::prelude::*;
use crate::eval::{evaluation, whole_points};
use crate::movegen::{hinted, move_list};
use crate::ordering::{history_after, killer_ends_after, killer_tiles_after, ordered_moves};
use crate::position::Position;
use crate::scoring::block_score;
use crate::tt::{
    TT_EXACT, TT_LOWER, TT_SIZE, TT_UPPER, TtSlot, empty_slot, probe_slot, slot_after_store,
    slot_index,
};

verus! {

/// What the search reads and writes, as values: the position, the slots and
/// the generation of the transposition table, the killers and the history
/// scores, and the counters.
pub struct SearchModel {
    pub pos: Position,
    pub slots: Seq<TtSlot>,
    pub generation: u8,
    pub killer_tile: Seq<i8>,
    pub killer_end: Seq<i8>,
    pub history: Seq<i32>,
    pub nodes: int,
    pub probes: int,
    pub hits: int,
    pub cutoffs: int,
    pub hints: int,
}

/// What the search of the moves of a node has found: the best score, the
/// move that gave it, and the model after the search.
pub struct Folded {
    pub best: i32,
    pub best_idx: i8,
    pub best_end: i8,
    pub model: SearchModel,
}

/// What the search of the root moves has found: the best score and the
/// first move that gave it, whether every move was searched below the node
/// limit, the searched moves with their scores, and the model after the
/// search.
pub struct RootFolded {
    pub best_score: i32,
    pub best_tile_idx: i8,
    pub best_end: i8,
    pub complete: bool,
    pub scores: Seq<(i8, i8, i32)>,
    pub model: SearchModel,
}

/// Nodes that one iteration may visit before the search falls back on the
/// static evaluation.
pub const NODE_LIMIT: u32 = 20_000_000;

/// A score beyond every score of a position.
pub const SCORE_INF: i32 = 100000;

/// The score that any score of a position betters for the side `is_ai`.
pub open spec fn worst(is_ai: bool) -> i32 {
    if is_ai {
        (-SCORE_INF) as i32
    } else {
        SCORE_INF
    }
}

/// The static evaluation of a position in whole points.
pub open spec fn static_value(pos: Position) -> i32 {
    whole_points(
        evaluation(
            pos.ai_hand,
            pos.human_hand,
            pos.left as int,
            pos.right as int,
            pos.match_diff as int,
        ),
    ) as i32
}

/// The score of the block that the position is.
pub open spec fn block_value(pos: Position) -> i32 {
    block_score(
        pos.ai_hand,
        pos.human_hand,
        pos.p1_who,
        pos.p1_tile,
        pos.p2_who,
        pos.p2_l,
        pos.p2_r,
    ) as i32
}

/// The model on another position.
pub open spec fn at(m: SearchModel, pos: Position) -> SearchModel {
    SearchModel { pos, ..m }
}

/// A probe of the transposition table for the position of the model: the
/// stored score where it can stand for the score of the node, the stored
/// best move as a hint otherwise (tile -1 where nothing is stored), and the
/// model with the probe counted.
pub open spec fn probed(m: SearchModel, depth: i32, alpha: i32, beta: i32) -> (
    Option<i32>,
    i8,
    i8,
    SearchModel,
) {
    let slot = m.slots[slot_index(m.pos.hash)];
    match probe_slot(slot, m.pos.hash, depth as int, alpha as int, beta as int) {
        None => (None, -1i8, -1i8, SearchModel { probes: m.probes + 1, ..m }),
        Some(hit) => match hit.score {
            Some(score) => (
                Some(score),
                -1i8,
                -1i8,
                SearchModel {
                    probes: m.probes + 1,
                    hits: m.hits + 1,
                    cutoffs: m.cutoffs + 1,
                    ..m
                },
            ),
            None => (
                None,
                hit.best_idx,
                hit.best_end,
                SearchModel { probes: m.probes + 1, hits: m.hits + 1, hints: m.hints + 1, ..m },
            ),
        },
    }
}

/// The model after a store of a result for its position.
pub open spec fn stored(
    m: SearchModel,
    depth: i32,
    flag: u8,
    value: i32,
    best_idx: i8,
    best_end: i8,
) -> SearchModel {
    SearchModel {
        slots: m.slots.update(
            slot_index(m.pos.hash),
            slot_after_store(
                m.slots[slot_index(m.pos.hash)],
                m.generation,
                m.pos.hash,
                depth,
                flag,
                value,
                best_idx,
                best_end,
            ),
        ),
        ..m
    }
}

/// The model after a cutoff by the move `(tile, end)` at `depth`: the move
/// is recorded as a killer and its history score grows.
pub open spec fn recorded(m: SearchModel, depth: i32, tile: i8, end: i8) -> SearchModel {
    SearchModel {
        killer_tile: killer_tiles_after(m.killer_tile, m.killer_end, depth as int, tile, end),
        killer_end: killer_ends_after(m.killer_tile, m.killer_end, depth as int, tile, end),
        history: m.history.update(
            3 * tile + end + 1,
            history_after(m.history[3 * tile + end + 1] as int, depth as int) as i32,
        ),
        ..m
    }
}

/// The flag of a stored result: an upper bound at or below `alpha`, a lower
/// bound at or above `beta`, exact in between.
pub open spec fn bound_flag(best: i32, alpha: i32, beta: i32) -> u8 {
    if best <= alpha {
        TT_UPPER
    } else if best >= beta {
        TT_LOWER
    } else {
        TT_EXACT
    }
}

/// The moves of a node in the order of its search: the generated moves,
/// ordered by their scores where they are more than two, with the hinted
/// move brought to the front where there is a hint.
pub open spec fn node_moves(
    m: SearchModel,
    is_ai: bool,
    depth: i32,
    hint_tile: i8,
    hint_end: i8,
) -> Seq<(int, int)> {
    let pos = m.pos;
    let generated = move_list(pos.mover_hand(is_ai), pos.left as int, pos.right as int);
    let ordered = if generated.len() > 2 {
        ordered_moves(
            m.killer_tile,
            m.killer_end,
            m.history,
            is_ai,
            depth as int,
            pos.ai_hand,
            pos.human_hand,
            pos.left as int,
            pos.right as int,
            generated,
        )
    } else {
        generated
    };
    if hint_tile >= 0 {
        hinted(ordered, hint_tile as int, hint_end as int)
    } else {
        ordered
    }
}

/// The score of a node and the model after its search, with `is_ai` to move
/// on the position of the model.
///
/// The node is counted. Once the count reaches the node limit the node is
/// its static evaluation. A side without a move passes, and the node is the
/// node of the other side with the pass pending; with a pass pending
/// already it is the block. At depth 0 the node is its static evaluation,
/// unless it is extended to depth 1. A probe of the transposition table may
/// give the score. Otherwise the moves are searched in their order, each on
/// the position after it, and the best score is stored with its bound.
pub open spec fn node(m: SearchModel, is_ai: bool, depth: i32, alpha: i32, beta: i32, ext: i32) -> (
    i32,
    SearchModel,
)
    decreases m.pos.measure(), 1int, 0int,
{
    let pos = m.pos;
    let counted = SearchModel { nodes: m.nodes + 1, ..m };
    let moves = move_list(pos.mover_hand(is_ai), pos.left as int, pos.right as int);
    if counted.nodes >= NODE_LIMIT {
        (static_value(pos), counted)
    } else if moves.len() == 0 {
        if pos.cons_pass + 1 >= 2 {
            (block_value(pos), counted)
        } else if 0 <= pos.after_pass().measure() < pos.measure() {
            let below = node(at(counted, pos.after_pass()), !is_ai, depth, alpha, beta, ext);
            (below.0, at(below.1, pos))
        } else {
            (0i32, counted)
        }
    } else if depth <= 0 && !pos.extends(is_ai, moves.len() as int, ext as int) {
        (static_value(pos), counted)
    } else {
        let deep: i32 = if depth <= 0 { 1i32 } else { depth };
        let extended: i32 = if depth <= 0 { (ext + 1) as i32 } else { ext };
        let probe = probed(counted, deep, alpha, beta);
        match probe.0 {
            Some(score) => (score, probe.3),
            None => {
                let list = node_moves(probe.3, is_ai, deep, probe.1, probe.2);
                let folded = children(
                    probe.3,
                    is_ai,
                    deep,
                    alpha,
                    beta,
                    extended,
                    list,
                    0,
                    worst(is_ai),
                    -1i8,
                    -1i8,
                );
                (
                    folded.best,
                    stored(
                        folded.model,
                        deep,
                        bound_flag(folded.best, alpha, beta),
                        folded.best,
                        folded.best_idx,
                        folded.best_end,
                    ),
                )
            },
        }
    }
}

/// The search of the moves of a node from move `i` on, with the best score
/// and the window so far.
///
/// A move that ends the game is its terminal score; any other is the node
/// of the other side, one ply less deep, on the position after the move. The
/// engine's side takes the highest score and raises `alpha` to it, the
/// opponent takes the lowest and lowers `beta`. Once `beta <= alpha` the
/// move is recorded as a cutoff and the rest is not searched.
pub open spec fn children(
    m: SearchModel,
    is_ai: bool,
    depth: i32,
    alpha: i32,
    beta: i32,
    ext: i32,
    list: Seq<(int, int)>,
    i: int,
    best: i32,
    best_idx: i8,
    best_end: i8,
) -> Folded
    decreases m.pos.measure(), 0int, list.len() - i,
{
    if i < 0 || i >= list.len() {
        Folded { best, best_idx, best_end, model: m }
    } else {
        let tile = list[i].0;
        let end = list[i].1;
        let child = m.pos.after_move(is_ai, tile, end);
        let below: (i32, SearchModel) = match child.terminal_score(is_ai) {
            Some(score) => (score as i32, m),
            None => if 0 <= child.measure() < m.pos.measure() {
                let r = node(at(m, child), !is_ai, (depth - 1) as i32, alpha, beta, ext);
                (r.0, at(r.1, m.pos))
            } else {
                (0i32, m)
            },
        };
        let score = below.0;
        let better = if is_ai { score > best } else { score < best };
        let best1 = if better { score } else { best };
        let idx1 = if better { tile as i8 } else { best_idx };
        let end1 = if better { end as i8 } else { best_end };
        let alpha1 = if is_ai && best1 > alpha { best1 } else { alpha };
        let beta1 = if !is_ai && best1 < beta { best1 } else { beta };
        if beta1 <= alpha1 {
            Folded {
                best: best1,
                best_idx: idx1,
                best_end: end1,
                model: recorded(below.1, depth, tile as i8, end as i8),
            }
        } else {
            children(below.1, is_ai, depth, alpha1, beta1, ext, list, i + 1, best1, idx1, end1)
        }
    }
}

/// The score of the root move `(tile, end)`, the `i`-th of the iteration,
/// and the model after its search.
///
/// A move that ends the game is its terminal score. The first move is
/// searched in the window `(cur_alpha, beta_w)`. A later move is searched in
/// the null window above `cur_alpha`, and again in the full window where its
/// score falls inside.
pub open spec fn root_move(
    m: SearchModel,
    i: int,
    tile: int,
    end: int,
    iter_depth: i32,
    cur_alpha: i32,
    beta_w: i32,
) -> (i32, SearchModel) {
    let child = m.pos.after_move(true, tile, end);
    let depth = (iter_depth - 1) as i32;
    match child.terminal_score(true) {
        Some(score) => (score as i32, m),
        None => if i == 0 {
            let r = node(at(m, child), false, depth, cur_alpha, beta_w, 0);
            (r.0, at(r.1, m.pos))
        } else {
            let null = node(at(m, child), false, depth, cur_alpha, (cur_alpha + 1) as i32, 0);
            if null.0 > cur_alpha && null.0 < beta_w {
                let full = node(null.1, false, depth, cur_alpha, beta_w, 0);
                (full.0, at(full.1, m.pos))
            } else {
                (null.0, at(null.1, m.pos))
            }
        },
    }
}

/// The search of the root moves from move `i` on, with the best move, the
/// best score, the raised `cur_alpha` and the scored moves so far. The
/// search stops after the move during which the node count reached the
/// limit.
pub open spec fn root_moves(
    m: SearchModel,
    list: Seq<(int, int)>,
    i: int,
    iter_depth: i32,
    cur_alpha: i32,
    beta_w: i32,
    best_score: i32,
    best_tile_idx: i8,
    best_end: i8,
    scores: Seq<(i8, i8, i32)>,
) -> RootFolded
    decreases list.len() - i,
{
    if i < 0 || i >= list.len() {
        RootFolded { best_score, best_tile_idx, best_end, complete: true, scores, model: m }
    } else {
        let tile = list[i].0;
        let end = list[i].1;
        let searched = root_move(m, i, tile, end, iter_depth, cur_alpha, beta_w);
        let score = searched.0;
        let scores1 = scores.push((tile as i8, end as i8, score));
        let better = score > best_score;
        let best1 = if better { score } else { best_score };
        let idx1 = if better { tile as i8 } else { best_tile_idx };
        let end1 = if better { end as i8 } else { best_end };
        let alpha1 = if score > cur_alpha { score } else { cur_alpha };
        if searched.1.nodes >= NODE_LIMIT {
            RootFolded {
                best_score: best1,
                best_tile_idx: idx1,
                best_end: end1,
                complete: false,
                scores: scores1,
                model: searched.1,
            }
        } else {
            root_moves(searched.1, list, i + 1, iter_depth, alpha1, beta_w, best1, idx1, end1, scores1)
        }
    }
}

/// One search of all root moves in the window `(alpha_w, beta_w)`.
pub open spec fn root_attempt(
    m: SearchModel,
    list: Seq<(int, int)>,
    iter_depth: i32,
    alpha_w: i32,
    beta_w: i32,
) -> RootFolded {
    root_moves(
        m,
        list,
        0,
        iter_depth,
        alpha_w,
        beta_w,
        (-SCORE_INF) as i32,
        -1i8,
        -1i8,
        Seq::empty(),
    )
}

/// The searches of the root moves of one iteration: after a complete search
/// that ends at or below `alpha_w`, or at or above `beta_w`, that side of
/// the window is opened and the moves are searched again, while attempts are
/// left.
pub open spec fn root_attempts(
    m: SearchModel,
    list: Seq<(int, int)>,
    iter_depth: i32,
    alpha_w: i32,
    beta_w: i32,
    attempts_left: int,
) -> RootFolded
    decreases attempts_left,
{
    let found = root_attempt(m, list, iter_depth, alpha_w, beta_w);
    if attempts_left <= 1 || !found.complete || !(found.best_score <= alpha_w || found.best_score
        >= beta_w) {
        found
    } else if found.best_score <= alpha_w {
        root_attempts(found.model, list, iter_depth, (-SCORE_INF) as i32, beta_w, attempts_left - 1)
    } else {
        root_attempts(found.model, list, iter_depth, alpha_w, SCORE_INF, attempts_left - 1)
    }
}

/// The root moves of an iteration in the order of their search: generated,
/// ordered where they are more than two, and with the best move that the
/// transposition table holds for the root brought to the front.
pub open spec fn root_list(m: SearchModel, iter_depth: i32) -> Seq<(int, int)> {
    let slot = m.slots[slot_index(m.pos.hash)];
    let hint = probe_slot(slot, m.pos.hash, 0, -SCORE_INF as int, SCORE_INF as int);
    match hint {
        Some(hit) => node_moves(m, true, iter_depth, hit.best_idx, hit.best_end),
        None => node_moves(m, true, iter_depth, -1i8, -1i8),
    }
}

/// The window round the score of the iteration before: 30 points to either
/// side, 15 from depth 6 on, and everything at depth 1.
pub open spec fn aspiration_window(iter_depth: i32, prev_score: i32) -> (i32, i32) {
    if iter_depth <= 1 {
        ((-SCORE_INF) as i32, SCORE_INF)
    } else if iter_depth >= 6 {
        ((prev_score - 15) as i32, (prev_score + 15) as i32)
    } else {
        ((prev_score - 30) as i32, (prev_score + 30) as i32)
    }
}

/// The model of an engine that has not searched yet: on no position, with
/// an empty transposition table in generation 0, no killers, no history and
/// nothing counted.
pub open spec fn new_model() -> SearchModel {
    SearchModel {
        pos: Position {
            ai_hand: 0,
            human_hand: 0,
            left: 7,
            right: 7,
            hash: 0,
            ply: 0,
            cons_pass: 0,
            match_diff: 0,
            p1_who: -1i8,
            p1_l: 0,
            p1_r: 0,
            p1_tile: -1i8,
            p2_who: -1i8,
            p2_l: 0,
            p2_r: 0,
        },
        slots: Seq::new(TT_SIZE as nat, |i: int| empty_slot()),
        generation: 0,
        killer_tile: Seq::new(128, |i: int| -1i8),
        killer_end: Seq::new(128, |i: int| -2i8),
        history: Seq::new(84, |i: int| 0i32),
        nodes: 0,
        probes: 0,
        hits: 0,
        cutoffs: 0,
        hints: 0,
    }
}

/// The model at the start of a search from the position `root`: the next
/// generation of the transposition table begins, generations wrapping
/// modulo 256, the killers, the history scores and the counters of the table
/// are cleared, and the slots of the table stay.
pub open spec fn begun(m: SearchModel, root: Position) -> SearchModel {
    SearchModel {
        pos: root,
        generation: if m.generation == 255 { 0u8 } else { (m.generation + 1) as u8 },
        killer_tile: Seq::new(128, |i: int| -1i8),
        killer_end: Seq::new(128, |i: int| -2i8),
        history: Seq::new(84, |i: int| 0i32),
        probes: 0,
        hits: 0,
        cutoffs: 0,
        hints: 0,
        ..m
    }
}

/// The model with no node counted.
pub open spec fn fresh(m: SearchModel) -> SearchModel {
    SearchModel { nodes: 0, ..m }
}

/// One iteration of the root search to `iter_depth`: the node count starts
/// at 0, the root moves are searched in the aspiration window round
/// `prev_score`, three times at most, and a complete iteration that found a
/// move stores it for the root as exact.
#[verifier::opaque]
pub open spec fn iteration(m: SearchModel, iter_depth: i32, prev_score: i32) -> RootFolded {
    let window = aspiration_window(iter_depth, prev_score);
    let found = root_attempts(
        fresh(m),
        root_list(fresh(m), iter_depth),
        iter_depth,
        window.0,
        window.1,
        3,
    );
    if found.complete && found.best_tile_idx >= 0 {
        RootFolded {
            model: stored(
                found.model,
                iter_depth,
                TT_EXACT,
                found.best_score,
                found.best_tile_idx,
                found.best_end,
            ),
            ..found
        }
    } else {
        found
    }
}

/// What the iterations of a search have committed: the move chosen so far
/// (-1 for tile and end where none is), and of the deepest complete
/// iteration the best score, the depth, the nodes and the scored root moves;
/// and whether the game is solved.
pub struct Progress {
    pub best_tile_idx: i8,
    pub best_end: i8,
    pub score: i32,
    pub depth: i32,
    pub nodes: int,
    pub analysis: Seq<(i8, i8, i32)>,
    pub solved: bool,
}

/// The progress of a search before its first iteration.
pub open spec fn no_progress() -> Progress {
    Progress {
        best_tile_idx: -1i8,
        best_end: -1i8,
        score: 0,
        depth: 0,
        nodes: 0,
        analysis: Seq::empty(),
        solved: false,
    }
}

/// The progress after the iteration `found` to `depth` was taken in, in a
/// search that started with `tiles` tiles in the two hands.
///
/// A complete iteration with a best move is committed whole: its move, its
/// score, its depth, its nodes and its scored moves. Of an iteration that
/// the node limit cut short the move alone is taken, where its tile is the
/// tile chosen so far or its score is above 500. A complete iteration at
/// least as deep as the tiles solves the game.
pub open spec fn committed(p: Progress, found: RootFolded, depth: i32, tiles: int) -> Progress {
    let has_move = found.best_tile_idx >= 0;
    let whole = has_move && found.complete;
    let takes_move = has_move && (found.complete || found.best_tile_idx == p.best_tile_idx
        || found.best_score > 500);
    Progress {
        best_tile_idx: if takes_move { found.best_tile_idx } else { p.best_tile_idx },
        best_end: if takes_move { found.best_end } else { p.best_end },
        score: if whole { found.best_score } else { p.score },
        depth: if whole { depth } else { p.depth },
        nodes: if whole { found.model.nodes } else { p.nodes },
        analysis: if whole { found.scores } else { p.analysis },
        solved: p.solved || (found.complete && depth >= tiles),
    }
}

/// The model and the progress of a search after its first `n` iterations,
/// the `k`-th to depth `k`, from the model `start` with `tiles` tiles in the
/// two hands.
#[verifier::opaque]
pub open spec fn searched(start: SearchModel, tiles: int, n: nat) -> (SearchModel, Progress)
    decreases n,
{
    if n == 0 {
        (start, no_progress())
    } else {
        let before = searched(start, tiles, (n - 1) as nat);
        let found = iteration(before.0, n as i32, before.1.score);
        (found.model, committed(before.1, found, n as i32, tiles))
    }
}

} // verus!
