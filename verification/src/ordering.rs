//! Move ordering: two killer moves for each depth, a history score for each
//! move, and bonuses for what a move brings about at once.
//!
//! Ordering scores are kept in half points, so that the bonus of one and a
//! half points for each pip is a whole number.
use vstd::prelude::*;
use crate::lookup::{
    TILE_IS_DOUBLE, TILE_PIPS, hand_tiles, is_double, lemma_hand_ops, lemma_hand_tiles,
    lemma_tile_bit, lemma_tile_tables, popcount, tile_pips, valid_hand,
};
use crate::movegen::{
    MAX_PLY, MoveBuffer, board_ok, compute_new_ends, count_moves_bb, ends_after, is_legal_move,
    lemma_ends_after, lemma_swap_keeps_moves, playable_tiles,
};
use crate::scoring::{ghost13, ghost13_applies};

verus! {

/// Depths that have killer slots.
pub const MAX_DEPTH_SLOTS: usize = 64;

/// The cap of a history score.
pub const HISTORY_CAP: i32 = 10000;

/// Half points for a move that plays the mover's last tile.
pub const MO_DOMINO: i32 = 2000;

/// Half points for the first killer of the depth.
pub const MO_KILLER_FIRST: i32 = 10000;

/// Half points for the second killer of the depth.
pub const MO_KILLER_SECOND: i32 = 9000;

/// Half points for a double.
pub const MO_DOUBLE: i32 = 24;

/// Half points for each pip of the tile.
pub const MO_PIP_MULT: i32 = 3;

/// Half points for a move that leaves the opponent without a reply.
pub const MO_FORCE_PASS: i32 = 50;

/// Half points for a move of the engine that brings the ghost-13 rule down
/// on the opponent.
pub const MO_GHOST: i32 = 30;

/// The killer moves and the history scores.
///
/// The killers of depth `d` are at `2 * d` (the first) and `2 * d + 1` (the
/// second); an empty slot holds tile -1 and end -2. The history score of
/// tile `t` on end `e` is at `3 * t + e + 1`.
pub struct OrderingTables {
    pub killer_tile: Vec<i8>,
    pub killer_end: Vec<i8>,
    pub history: Vec<i32>,
}

/// The killer tiles after a move is recorded at `depth`: where the depth has
/// slots and the move is not its first killer already, the first killer
/// becomes the second and the move becomes the first.
pub open spec fn killer_tiles_after(
    tiles: Seq<i8>,
    ends: Seq<i8>,
    depth: int,
    tile_idx: i8,
    end: i8,
) -> Seq<i8> {
    if 0 <= depth < 64 && (tiles[2 * depth] != tile_idx || ends[2 * depth] != end) {
        tiles.update(2 * depth + 1, tiles[2 * depth]).update(2 * depth, tile_idx)
    } else {
        tiles
    }
}

/// The killer ends after a move is recorded at `depth`.
pub open spec fn killer_ends_after(
    tiles: Seq<i8>,
    ends: Seq<i8>,
    depth: int,
    tile_idx: i8,
    end: i8,
) -> Seq<i8> {
    if 0 <= depth < 64 && (tiles[2 * depth] != tile_idx || ends[2 * depth] != end) {
        ends.update(2 * depth + 1, ends[2 * depth]).update(2 * depth, end)
    } else {
        ends
    }
}

/// A history score after a cutoff at `depth`: `depth * depth` more, and at
/// most the cap.
pub open spec fn history_after(score: int, depth: int) -> int {
    if score + depth * depth > 10000 {
        10000
    } else {
        score + depth * depth
    }
}

/// The bonus of move `(t, e)` as a killer of `depth`, in half points: 10000
/// for the first killer of the depth, 9000 for the second.
pub open spec fn killer_bonus_of(
    killer_tile: Seq<i8>,
    killer_end: Seq<i8>,
    depth: int,
    t: int,
    e: int,
) -> int {
    if 0 <= depth < 64 {
        if killer_tile[2 * depth] == t && killer_end[2 * depth] == e {
            10000
        } else if killer_tile[2 * depth + 1] == t && killer_end[2 * depth + 1] == e {
            9000
        } else {
            0
        }
    } else {
        0
    }
}

/// The ordering score of the legal move `(t, e)` of the side to move, in
/// half points: 2000 for the mover's last tile, the killer bonus, twice the
/// history score, 24 for a double, 3 for each pip, 50 where the opponent is
/// left without a reply, and 30 where the engine brings the ghost-13 rule
/// down on the opponent.
pub open spec fn move_score_of(
    killer_tile: Seq<i8>,
    killer_end: Seq<i8>,
    history: Seq<i32>,
    is_ai: bool,
    depth: int,
    ai_hand: i32,
    human_hand: i32,
    left: int,
    right: int,
    t: int,
    e: int,
) -> int {
    let my_hand = if is_ai { ai_hand } else { human_hand };
    let opp_hand = if is_ai { human_hand } else { ai_hand };
    let ends = ends_after(t, e, left, right);
    (if hand_tiles(my_hand).len() == 1 { 2000int } else { 0int }) + killer_bonus_of(
        killer_tile,
        killer_end,
        depth,
        t,
        e,
    ) + 2 * history[3 * t + e + 1] + (if is_double(t) { 24int } else { 0int }) + 3 * tile_pips(t) + (
    if playable_tiles(opp_hand, ends.0, ends.1).len() == 0 {
        50int
    } else {
        0int
    }) + (if is_ai && ghost13(opp_hand, (my_hand ^ (1i32 << (t as u32))) | opp_hand) {
        30int
    } else {
        0int
    })
}

impl OrderingTables {
    /// The tables have their full size, and every history score lies between
    /// 0 and the cap.
    pub open spec fn wf(&self) -> bool {
        &&& self.killer_tile@.len() == 128
        &&& self.killer_end@.len() == 128
        &&& self.history@.len() == 84
        &&& forall|i: int| 0 <= i < 84 ==> 0 <= #[trigger] self.history@[i] <= HISTORY_CAP
    }

    /// No killer is recorded and every history score is 0.
    pub open spec fn cleared(&self) -> bool {
        &&& forall|i: int| 0 <= i < 128 ==> #[trigger] self.killer_tile@[i] == -1
        &&& forall|i: int| 0 <= i < 128 ==> #[trigger] self.killer_end@[i] == -2
        &&& forall|i: int| 0 <= i < 84 ==> #[trigger] self.history@[i] == 0
    }

    /// The bonus of move `(t, e)` as a killer of `depth`, in half points.
    pub open spec fn killer_bonus(&self, depth: int, t: int, e: int) -> int {
        killer_bonus_of(self.killer_tile@, self.killer_end@, depth, t, e)
    }

    /// The ordering score of the legal move `(t, e)` of the side to move, in
    /// half points.
    pub open spec fn move_score(
        &self,
        is_ai: bool,
        depth: int,
        ai_hand: i32,
        human_hand: i32,
        left: int,
        right: int,
        t: int,
        e: int,
    ) -> int {
        move_score_of(
            self.killer_tile@,
            self.killer_end@,
            self.history@,
            is_ai,
            depth,
            ai_hand,
            human_hand,
            left,
            right,
            t,
            e,
        )
    }

    /// Tables with no killer recorded and every history score 0.
    pub fn new() -> (tables: OrderingTables)
        ensures
            tables.wf(),
            tables.cleared(),
    {
        let mut tables = OrderingTables {
            killer_tile: Vec::new(),
            killer_end: Vec::new(),
            history: Vec::new(),
        };
        let mut k: usize = 0;
        while k < 128
            invariant
                k <= 128,
                tables.killer_tile@.len() == k,
                tables.killer_end@.len() == k,
                tables.history@.len() == 0,
                forall|i: int| 0 <= i < k ==> #[trigger] tables.killer_tile@[i] == -1,
                forall|i: int| 0 <= i < k ==> #[trigger] tables.killer_end@[i] == -2,
            decreases 128 - k,
        {
            tables.killer_tile.push(-1);
            tables.killer_end.push(-2);
            k += 1;
        }
        let mut h: usize = 0;
        while h < 84
            invariant
                h <= 84,
                tables.killer_tile@.len() == 128,
                tables.killer_end@.len() == 128,
                tables.history@.len() == h,
                forall|i: int| 0 <= i < 128 ==> #[trigger] tables.killer_tile@[i] == -1,
                forall|i: int| 0 <= i < 128 ==> #[trigger] tables.killer_end@[i] == -2,
                forall|i: int| 0 <= i < h ==> #[trigger] tables.history@[i] == 0,
            decreases 84 - h,
        {
            tables.history.push(0);
            h += 1;
        }
        tables
    }

    /// The killer of `depth` in slot `slot` (0 the first, 1 the second), as
    /// tile and end.
    pub fn killer_at(&self, depth: usize, slot: usize) -> (killer: (i8, i8))
        requires
            self.wf(),
            depth < 64,
            slot < 2,
        ensures
            killer.0 == self.killer_tile@[2 * depth + slot],
            killer.1 == self.killer_end@[2 * depth + slot],
    {
        (self.killer_tile[2 * depth + slot], self.killer_end[2 * depth + slot])
    }

    /// The history score of tile `tile_idx` on end `end`.
    pub fn history_at(&self, tile_idx: usize, end: i8) -> (score: i32)
        requires
            self.wf(),
            tile_idx < 28,
            -1 <= end <= 1,
        ensures
            score == self.history@[3 * tile_idx + end + 1],
            0 <= score <= HISTORY_CAP,
    {
        self.history[3 * tile_idx + (end + 1) as usize]
    }
}

/// Forgets every killer and sets every history score to 0.
pub fn clear_move_ordering_data(tables: &mut OrderingTables)
    requires
        old(tables).killer_tile@.len() == 128,
        old(tables).killer_end@.len() == 128,
        old(tables).history@.len() == 84,
    ensures
        final(tables).wf(),
        final(tables).cleared(),
{
    let mut k: usize = 0;
    while k < 128
        invariant
            k <= 128,
            tables.killer_tile@.len() == 128,
            tables.killer_end@.len() == 128,
            tables.history@.len() == 84,
            forall|i: int| 0 <= i < k ==> #[trigger] tables.killer_tile@[i] == -1,
            forall|i: int| 0 <= i < k ==> #[trigger] tables.killer_end@[i] == -2,
        decreases 128 - k,
    {
        tables.killer_tile[k] = -1;
        tables.killer_end[k] = -2;
        k += 1;
    }
    let mut h: usize = 0;
    while h < 84
        invariant
            h <= 84,
            tables.killer_tile@.len() == 128,
            tables.killer_end@.len() == 128,
            tables.history@.len() == 84,
            forall|i: int| 0 <= i < 128 ==> #[trigger] tables.killer_tile@[i] == -1,
            forall|i: int| 0 <= i < 128 ==> #[trigger] tables.killer_end@[i] == -2,
            forall|i: int| 0 <= i < h ==> #[trigger] tables.history@[i] == 0,
        decreases 84 - h,
    {
        tables.history[h] = 0;
        h += 1;
    }
}

/// Records a killer move at `depth`. A depth outside 0..64 has no slots, and
/// a move that is the first killer already is not recorded again; otherwise
/// the first killer becomes the second and the move becomes the first.
pub fn record_killer(tables: &mut OrderingTables, depth: i32, tile_idx: i8, end: i8)
    requires
        old(tables).wf(),
    ensures
        final(tables).wf(),
        final(tables).killer_tile@ == killer_tiles_after(
            old(tables).killer_tile@,
            old(tables).killer_end@,
            depth as int,
            tile_idx,
            end,
        ),
        final(tables).killer_end@ == killer_ends_after(
            old(tables).killer_tile@,
            old(tables).killer_end@,
            depth as int,
            tile_idx,
            end,
        ),
        final(tables).history@ == old(tables).history@,
{
    if depth >= 0 && (depth as usize) < MAX_DEPTH_SLOTS {
        let kd: usize = (depth as usize) * 2;
        if tables.killer_tile[kd] != tile_idx || tables.killer_end[kd] != end {
            let first_t: i8 = tables.killer_tile[kd];
            let first_e: i8 = tables.killer_end[kd];
            tables.killer_tile[kd + 1] = first_t;
            tables.killer_end[kd + 1] = first_e;
            tables.killer_tile[kd] = tile_idx;
            tables.killer_end[kd] = end;
        }
    }
}

/// Adds `depth * depth` to the history score of a cutoff move, up to the
/// cap.
pub fn record_history(tables: &mut OrderingTables, tile_idx: i8, end: i8, depth: i32)
    requires
        old(tables).wf(),
        0 <= tile_idx < 28,
        -1 <= end <= 1,
    ensures
        final(tables).wf(),
        final(tables).history@ == old(tables).history@.update(
            3 * tile_idx + end + 1,
            history_after(old(tables).history@[3 * tile_idx + end + 1] as int, depth as int) as i32,
        ),
        final(tables).history@[3 * tile_idx + end + 1] <= HISTORY_CAP,
        final(tables).killer_tile@ == old(tables).killer_tile@,
        final(tables).killer_end@ == old(tables).killer_end@,
{
    let slot: usize = 3 * (tile_idx as usize) + (end + 1) as usize;
    let d: i64 = depth as i64;
    assert(0 <= d * d <= 0x4000_0000_0000_0000) by (nonlinear_arith)
        requires
            -0x8000_0000 <= d <= 0x7fff_ffff,
    ;
    let hv: i64 = tables.history[slot] as i64 + d * d;
    tables.history[slot] = if hv > HISTORY_CAP as i64 {
        HISTORY_CAP
    } else {
        hv as i32
    };
}

/// Recording a move that is recorded already changes nothing.
pub proof fn lemma_record_killer_again(tiles: Seq<i8>, ends: Seq<i8>, depth: int, tile_idx: i8, end: i8)
    requires
        tiles.len() == 128,
        ends.len() == 128,
    ensures
        killer_tiles_after(
            killer_tiles_after(tiles, ends, depth, tile_idx, end),
            killer_ends_after(tiles, ends, depth, tile_idx, end),
            depth,
            tile_idx,
            end,
        ) == killer_tiles_after(tiles, ends, depth, tile_idx, end),
        killer_ends_after(
            killer_tiles_after(tiles, ends, depth, tile_idx, end),
            killer_ends_after(tiles, ends, depth, tile_idx, end),
            depth,
            tile_idx,
            end,
        ) == killer_ends_after(tiles, ends, depth, tile_idx, end),
{
}

/// A move recorded twice at a depth whose slots were empty is the first
/// killer of the depth, and the second slot is still empty.
pub proof fn lemma_same_killer_twice(tiles: Seq<i8>, ends: Seq<i8>, depth: int, tile_idx: i8, end: i8)
    requires
        tiles.len() == 128,
        ends.len() == 128,
        0 <= depth < 64,
        tiles[2 * depth] == -1 && ends[2 * depth] == -2,
        tiles[2 * depth + 1] == -1 && ends[2 * depth + 1] == -2,
    ensures
        ({
            let t1 = killer_tiles_after(tiles, ends, depth, tile_idx, end);
            let e1 = killer_ends_after(tiles, ends, depth, tile_idx, end);
            let t2 = killer_tiles_after(t1, e1, depth, tile_idx, end);
            let e2 = killer_ends_after(t1, e1, depth, tile_idx, end);
            &&& t2[2 * depth] == tile_idx && e2[2 * depth] == end
            &&& t2[2 * depth + 1] == -1 && e2[2 * depth + 1] == -2
        }),
{
}

/// The ordering score of one legal move, in half points.
fn score_move(
    tables: &OrderingTables,
    is_ai: bool,
    depth: i32,
    ai_hand: i32,
    human_hand: i32,
    left: i8,
    right: i8,
    t_idx: usize,
    end: i8,
) -> (s: i32)
    requires
        tables.wf(),
        valid_hand(ai_hand),
        valid_hand(human_hand),
        board_ok(left as int, right as int),
        0 <= right <= 7,
        is_legal_move(
            if is_ai { ai_hand } else { human_hand },
            left as int,
            right as int,
            t_idx as int,
            end as int,
        ),
    ensures
        s == tables.move_score(
            is_ai,
            depth as int,
            ai_hand,
            human_hand,
            left as int,
            right as int,
            t_idx as int,
            end as int,
        ),
        0 <= s <= 32140,
{
    let my_hand: i32 = if is_ai { ai_hand } else { human_hand };
    let opp_hand: i32 = if is_ai { human_hand } else { ai_hand };
    proof {
        lemma_ends_after(my_hand, left as int, right as int, t_idx as int, end as int);
        lemma_hand_tiles(my_hand);
        lemma_tile_tables(t_idx as int);
        lemma_tile_bit(t_idx as int);
        lemma_hand_ops(my_hand, 1i32 << (t_idx as u32));
        lemma_hand_ops(my_hand ^ (1i32 << (t_idx as u32)), opp_hand);
    }
    let mut s: i32 = 0;
    if popcount(my_hand) == 1 {
        s += MO_DOMINO;
    }
    if depth >= 0 && (depth as usize) < MAX_DEPTH_SLOTS {
        let first = tables.killer_at(depth as usize, 0);
        let second = tables.killer_at(depth as usize, 1);
        if first.0 == t_idx as i8 && first.1 == end {
            s += MO_KILLER_FIRST;
        } else if second.0 == t_idx as i8 && second.1 == end {
            s += MO_KILLER_SECOND;
        }
    }
    s += 2 * tables.history_at(t_idx, end);
    if TILE_IS_DOUBLE[t_idx] {
        s += MO_DOUBLE;
    }
    s += TILE_PIPS[t_idx] as i32 * MO_PIP_MULT;
    let (new_l, new_r) = compute_new_ends(t_idx, end, left, right);
    if count_moves_bb(opp_hand, new_l, new_r) == 0 {
        s += MO_FORCE_PASS;
    }
    if is_ai {
        let new_both: i32 = (my_hand ^ (1i32 << t_idx)) | opp_hand;
        if ghost13_applies(opp_hand, new_both) {
            s += MO_GHOST;
        }
    }
    s
}

/// The moves of ply `ply` are legal moves of `hand`.
pub open spec fn moves_legal(
    buf: &MoveBuffer,
    ply: int,
    num_moves: int,
    hand: i32,
    left: int,
    right: int,
) -> bool {
    forall|i: int|
        0 <= i < num_moves ==> is_legal_move(
            hand,
            left,
            right,
            #[trigger] buf.tile_of(ply, i),
            buf.end_of(ply, i),
        )
}

/// Each of the first `num_moves` moves of ply `ply` carries its ordering
/// score.
pub open spec fn moves_scored(
    buf: &MoveBuffer,
    tables: &OrderingTables,
    ply: int,
    num_moves: int,
    is_ai: bool,
    depth: int,
    ai_hand: i32,
    human_hand: i32,
    left: int,
    right: int,
) -> bool {
    forall|i: int|
        0 <= i < num_moves ==> #[trigger] buf.score_of(ply, i) == tables.move_score(
            is_ai,
            depth,
            ai_hand,
            human_hand,
            left,
            right,
            buf.tile_of(ply, i),
            buf.end_of(ply, i),
        )
}

/// The first `num_moves` moves of ply `ply` stand by descending score.
pub open spec fn moves_sorted(buf: &MoveBuffer, ply: int, num_moves: int) -> bool {
    forall|i: int, j: int|
        0 <= i < j < num_moves ==> #[trigger] buf.score_of(ply, i) >= #[trigger] buf.score_of(ply, j)
}

/// The first `n` entries of ply `ply`: each move with its ordering score.
pub open spec fn entries(buf: &MoveBuffer, ply: int, n: int) -> Seq<(int, int, int)> {
    Seq::new(n as nat, |i: int| (buf.tile_of(ply, i), buf.end_of(ply, i), buf.score_of(ply, i)))
}

/// The list with the entry `x` put in behind the last entry that does not
/// score less.
pub open spec fn insert_entry(sorted: Seq<(int, int, int)>, x: (int, int, int)) -> Seq<
    (int, int, int),
>
    decreases sorted.len(),
{
    if sorted.len() == 0 {
        seq![x]
    } else if sorted.last().2 < x.2 {
        insert_entry(sorted.drop_last(), x).push(sorted.last())
    } else {
        sorted.push(x)
    }
}

/// The entries by descending score, entries of equal score in their order.
pub open spec fn sorted_entries(list: Seq<(int, int, int)>) -> Seq<(int, int, int)>
    decreases list.len(),
{
    if list.len() == 0 {
        list
    } else {
        insert_entry(sorted_entries(list.drop_last()), list.last())
    }
}

/// The moves of a list, each with its ordering score.
pub open spec fn scored_moves(
    killer_tile: Seq<i8>,
    killer_end: Seq<i8>,
    history: Seq<i32>,
    is_ai: bool,
    depth: int,
    ai_hand: i32,
    human_hand: i32,
    left: int,
    right: int,
    moves: Seq<(int, int)>,
) -> Seq<(int, int, int)> {
    Seq::new(
        moves.len(),
        |i: int|
            (
                moves[i].0,
                moves[i].1,
                move_score_of(
                    killer_tile,
                    killer_end,
                    history,
                    is_ai,
                    depth,
                    ai_hand,
                    human_hand,
                    left,
                    right,
                    moves[i].0,
                    moves[i].1,
                ),
            ),
    )
}

/// The moves of a list of entries.
pub open spec fn entry_moves(list: Seq<(int, int, int)>) -> Seq<(int, int)> {
    Seq::new(list.len(), |i: int| (list[i].0, list[i].1))
}

/// The moves of a list in the order of the search: by descending ordering
/// score, moves of equal score in the order of their generation. A list of
/// fewer than two moves stays as it is.
pub open spec fn ordered_moves(
    killer_tile: Seq<i8>,
    killer_end: Seq<i8>,
    history: Seq<i32>,
    is_ai: bool,
    depth: int,
    ai_hand: i32,
    human_hand: i32,
    left: int,
    right: int,
    moves: Seq<(int, int)>,
) -> Seq<(int, int)> {
    if moves.len() <= 1 {
        moves
    } else {
        entry_moves(
            sorted_entries(
                scored_moves(
                    killer_tile,
                    killer_end,
                    history,
                    is_ai,
                    depth,
                    ai_hand,
                    human_hand,
                    left,
                    right,
                    moves,
                ),
            ),
        )
    }
}

/// Sorting keeps the number of entries.
pub proof fn lemma_sorted_entries_len(list: Seq<(int, int, int)>)
    ensures
        sorted_entries(list).len() == list.len(),
    decreases list.len(),
{
    if list.len() > 0 {
        lemma_sorted_entries_len(list.drop_last());
        lemma_insert_entry_len(sorted_entries(list.drop_last()), list.last());
    }
}

proof fn lemma_insert_entry_len(sorted: Seq<(int, int, int)>, x: (int, int, int))
    ensures
        insert_entry(sorted, x).len() == sorted.len() + 1,
    decreases sorted.len(),
{
    if sorted.len() > 0 && sorted.last().2 < x.2 {
        lemma_insert_entry_len(sorted.drop_last(), x);
    }
}

/// Scores the first `num_moves` moves of ply `ply` and sorts them by
/// descending score; moves of equal score keep their order. A list of fewer
/// than two moves is left as it is.
///
/// The moves are those of the side to move (`is_ai`) in the position given;
/// `depth` selects the killers.
pub fn order_moves_at_ply(
    buf: &mut MoveBuffer,
    tables: &OrderingTables,
    ply: usize,
    num_moves: usize,
    is_ai: bool,
    depth: i32,
    ai_hand: i32,
    human_hand: i32,
    left: i8,
    right: i8,
)
    requires
        old(buf).wf(),
        tables.wf(),
        ply < MAX_PLY,
        num_moves <= 28,
        valid_hand(ai_hand),
        valid_hand(human_hand),
        board_ok(left as int, right as int),
        0 <= right <= 7,
        moves_legal(
            old(buf),
            ply as int,
            num_moves as int,
            if is_ai { ai_hand } else { human_hand },
            left as int,
            right as int,
        ),
    ensures
        final(buf).wf(),
        final(buf).moves(ply as int, num_moves as int).to_multiset() == old(buf).moves(
            ply as int,
            num_moves as int,
        ).to_multiset(),
        final(buf).same_from(old(buf), ply as int, num_moves as int),
        final(buf).same_but_ply(old(buf), ply as int),
        num_moves <= 1 ==> *final(buf) == *old(buf),
        num_moves >= 2 ==> moves_scored(
            final(buf),
            tables,
            ply as int,
            num_moves as int,
            is_ai,
            depth as int,
            ai_hand,
            human_hand,
            left as int,
            right as int,
        ),
        num_moves >= 2 ==> moves_sorted(final(buf), ply as int, num_moves as int),
        num_moves >= 2 ==> entries(final(buf), ply as int, num_moves as int) == sorted_entries(
            scored_moves(
                tables.killer_tile@,
                tables.killer_end@,
                tables.history@,
                is_ai,
                depth as int,
                ai_hand,
                human_hand,
                left as int,
                right as int,
                old(buf).moves(ply as int, num_moves as int),
            ),
        ),
        final(buf).moves(ply as int, num_moves as int) == ordered_moves(
            tables.killer_tile@,
            tables.killer_end@,
            tables.history@,
            is_ai,
            depth as int,
            ai_hand,
            human_hand,
            left as int,
            right as int,
            old(buf).moves(ply as int, num_moves as int),
        ),
{
    if num_moves <= 1 {
        assert(buf.moves(ply as int, num_moves as int).len() <= 1);
        return ;
    }
    let base: usize = ply * 28;
    let ghost my_hand = if is_ai { ai_hand } else { human_hand };
    let mut i: usize = 0;
    while i < num_moves
        invariant
            buf.wf(),
            tables.wf(),
            base == ply * 28,
            ply < MAX_PLY,
            i <= num_moves <= 28,
            valid_hand(ai_hand),
            valid_hand(human_hand),
            board_ok(left as int, right as int),
            0 <= right <= 7,
            my_hand == if is_ai { ai_hand } else { human_hand },
            buf.tile@ == old(buf).tile@,
            buf.end@ == old(buf).end@,
            moves_legal(buf, ply as int, num_moves as int, my_hand, left as int, right as int),
            moves_scored(
                buf,
                tables,
                ply as int,
                i as int,
                is_ai,
                depth as int,
                ai_hand,
                human_hand,
                left as int,
                right as int,
            ),
            buf.same_but_ply(old(buf), ply as int),
        decreases num_moves - i,
    {
        let t: i8 = buf.tile[base + i];
        let end: i8 = buf.end[base + i];
        proof {
            assert(t == buf.tile_of(ply as int, i as int));
            assert(end == buf.end_of(ply as int, i as int));
            lemma_ends_after(my_hand, left as int, right as int, t as int, end as int);
        }
        let s: i32 = score_move(
            tables,
            is_ai,
            depth,
            ai_hand,
            human_hand,
            left,
            right,
            t as usize,
            end,
        );
        let ghost prev = *buf;
        buf.score[base + i] = s;
        proof {
            assert forall|k: int| 0 <= k < i + 1 implies #[trigger] buf.score_of(ply as int, k)
                == tables.move_score(
                is_ai,
                depth as int,
                ai_hand,
                human_hand,
                left as int,
                right as int,
                buf.tile_of(ply as int, k),
                buf.end_of(ply as int, k),
            ) by {
                if k < i {
                    assert(buf.score_of(ply as int, k) == prev.score_of(ply as int, k));
                    assert(buf.tile_of(ply as int, k) == prev.tile_of(ply as int, k));
                }
            }
            assert forall|k: int| 0 <= k < num_moves implies is_legal_move(
                my_hand,
                left as int,
                right as int,
                #[trigger] buf.tile_of(ply as int, k),
                buf.end_of(ply as int, k),
            ) by {
                assert(buf.tile_of(ply as int, k) == prev.tile_of(ply as int, k));
            }
        }
        i += 1;
    }
    assert(buf.moves(ply as int, num_moves as int) =~= old(buf).moves(ply as int, num_moves as int));
    let ghost given = entries(buf, ply as int, num_moves as int);
    proof {
        assert(given =~= scored_moves(
            tables.killer_tile@,
            tables.killer_end@,
            tables.history@,
            is_ai,
            depth as int,
            ai_hand,
            human_hand,
            left as int,
            right as int,
            old(buf).moves(ply as int, num_moves as int),
        ));
        let first = given.take(1);
        assert(first.drop_last() =~= Seq::<(int, int, int)>::empty());
        assert(sorted_entries(first.drop_last()) =~= Seq::<(int, int, int)>::empty());
        assert(sorted_entries(first) =~= seq![given[0]]);
        assert(given.take(1) =~= seq![given[0]]);
    }
    let mut i: usize = 1;
    while i < num_moves
        invariant
            buf.wf(),
            base == ply * 28,
            ply < MAX_PLY,
            1 <= i <= num_moves <= 28,
            given.len() == num_moves,
            entries(buf, ply as int, num_moves as int).take(i as int) == sorted_entries(
                given.take(i as int),
            ),
            entries(buf, ply as int, num_moves as int).skip(i as int) == given.skip(i as int),
            buf.moves(ply as int, num_moves as int).to_multiset() == old(buf).moves(
                ply as int,
                num_moves as int,
            ).to_multiset(),
            moves_scored(
                buf,
                tables,
                ply as int,
                num_moves as int,
                is_ai,
                depth as int,
                ai_hand,
                human_hand,
                left as int,
                right as int,
            ),
            buf.same_but_ply(old(buf), ply as int),
            buf.same_from(old(buf), ply as int, num_moves as int),
            moves_sorted(buf, ply as int, i as int),
        decreases num_moves - i,
    {
        let ghost sorted = sorted_entries(given.take(i as int));
        let ghost x = given[i as int];
        proof {
            let cur = entries(buf, ply as int, num_moves as int);
            lemma_sorted_entries_len(given.take(i as int));
            assert(cur[i as int] == cur.skip(i as int)[0]);
            assert(sorted.take(i as int) =~= sorted);
            assert(sorted.skip(i as int) =~= Seq::<(int, int, int)>::empty());
            assert(insert_entry(sorted.take(i as int), x) + sorted.skip(i as int) =~= insert_entry(
                sorted,
                x,
            ));
            assert(cur.skip(i + 1) =~= cur.skip(i as int).skip(1));
            assert(given.skip(i + 1) =~= given.skip(i as int).skip(1));
            assert(cur.take(i as int) =~= sorted);
        }
        let mut j: usize = i;
        while j > 0 && buf.score[base + j - 1] < buf.score[base + j]
            invariant
                buf.wf(),
                base == ply * 28,
                ply < MAX_PLY,
                1 <= i < num_moves <= 28,
                j <= i,
                given.len() == num_moves,
                sorted.len() == i,
                x == given[i as int],
                entries(buf, ply as int, num_moves as int).take(j as int) == sorted.take(j as int),
                entries(buf, ply as int, num_moves as int)[j as int] == x,
                forall|k: int|
                    j < k <= i ==> #[trigger] entries(buf, ply as int, num_moves as int)[k]
                        == sorted[k - 1],
                entries(buf, ply as int, num_moves as int).skip(i + 1) == given.skip(i + 1),
                insert_entry(sorted, x) == insert_entry(sorted.take(j as int), x) + sorted.skip(
                    j as int,
                ),
                buf.moves(ply as int, num_moves as int).to_multiset() == old(buf).moves(
                    ply as int,
                    num_moves as int,
                ).to_multiset(),
                moves_scored(
                    buf,
                    tables,
                    ply as int,
                    num_moves as int,
                    is_ai,
                    depth as int,
                    ai_hand,
                    human_hand,
                    left as int,
                    right as int,
                ),
                buf.same_but_ply(old(buf), ply as int),
                buf.same_from(old(buf), ply as int, num_moves as int),
                forall|a: int, b: int|
                    0 <= a < b <= i && a != j && b != j ==> #[trigger] buf.score_of(ply as int, a)
                        >= #[trigger] buf.score_of(ply as int, b),
                forall|b: int|
                    j < b <= i ==> buf.score_of(ply as int, j as int) >= #[trigger] buf.score_of(
                        ply as int,
                        b,
                    ),
            decreases j,
        {
            let ghost prev = *buf;
            let ghost before = buf.moves(ply as int, num_moves as int);
            buf.swap_entries(ply, j - 1, j);
            proof {
                let p = ply as int;
                assert forall|k: int| 0 <= k < 28 implies #[trigger] buf.score_of(p, k) == (if k == j
                    - 1 {
                    prev.score_of(p, j as int)
                } else if k == j {
                    prev.score_of(p, j - 1)
                } else {
                    prev.score_of(p, k)
                }) && buf.tile_of(p, k) == (if k == j - 1 {
                    prev.tile_of(p, j as int)
                } else if k == j {
                    prev.tile_of(p, j - 1)
                } else {
                    prev.tile_of(p, k)
                }) && buf.end_of(p, k) == (if k == j - 1 {
                    prev.end_of(p, j as int)
                } else if k == j {
                    prev.end_of(p, j - 1)
                } else {
                    prev.end_of(p, k)
                }) by {}
                assert(buf.moves(p, num_moves as int) =~= before.update(
                    j - 1,
                    before[j as int],
                ).update(j as int, before[j - 1])) by {
                    let now = buf.moves(p, num_moves as int);
                    let swapped = before.update(j - 1, before[j as int]).update(
                        j as int,
                        before[j - 1],
                    );
                    assert forall|k: int| 0 <= k < num_moves implies now[k] == swapped[k] by {
                        assert(buf.tile_of(p, k) == buf.tile_of(p, k));
                    }
                }
                lemma_swap_keeps_moves(before, j - 1, j as int);
                assert forall|k: int| num_moves <= k < 28 implies #[trigger] buf.tile_of(p, k)
                    == old(buf).tile_of(p, k) && buf.end_of(p, k) == old(buf).end_of(p, k) by {
                    assert(prev.tile_of(p, k) == old(buf).tile_of(p, k));
                    assert(buf.score_of(p, k) == prev.score_of(p, k));
                }
                assert forall|k: int| 0 <= k < num_moves implies #[trigger] buf.score_of(p, k)
                    == tables.move_score(
                    is_ai,
                    depth as int,
                    ai_hand,
                    human_hand,
                    left as int,
                    right as int,
                    buf.tile_of(p, k),
                    buf.end_of(p, k),
                ) by {
                    assert(prev.score_of(p, k) == prev.score_of(p, k));
                    assert(prev.score_of(p, j as int) == prev.score_of(p, j as int));
                    assert(prev.score_of(p, j - 1) == prev.score_of(p, j - 1));
                }
                assert forall|a: int, b: int|
                    0 <= a < b <= i && a != j - 1 && b != j - 1 implies #[trigger] buf.score_of(p, a)
                    >= #[trigger] buf.score_of(p, b) by {
                    assert(prev.score_of(p, a) == prev.score_of(p, a));
                    assert(prev.score_of(p, b) == prev.score_of(p, b));
                    assert(prev.score_of(p, j - 1) == prev.score_of(p, j - 1));
                }
                assert forall|b: int| j - 1 < b <= i implies buf.score_of(p, j - 1)
                    >= #[trigger] buf.score_of(p, b) by {
                    assert(prev.score_of(p, b) == prev.score_of(p, b));
                    assert(prev.score_of(p, j - 1) == prev.score_of(p, j - 1));
                }
                let was = entries(&prev, p, num_moves as int);
                let cur = entries(buf, p, num_moves as int);
                assert forall|k: int| 0 <= k < num_moves implies #[trigger] cur[k] == (if k == j - 1 {
                    was[j as int]
                } else if k == j {
                    was[j - 1]
                } else {
                    was[k]
                }) by {
                    assert(buf.score_of(p, k) == buf.score_of(p, k));
                }
                assert(was[j - 1] == was.take(j as int)[j - 1]);
                assert(was[j - 1] == sorted[j - 1]);
                let head = sorted.take(j as int);
                assert(head.last() == sorted[j - 1]);
                assert(head.drop_last() =~= sorted.take(j - 1));
                assert(insert_entry(head, x) == insert_entry(sorted.take(j - 1), x).push(
                    sorted[j - 1],
                ));
                assert(insert_entry(sorted.take(j - 1), x).push(sorted[j - 1]) + sorted.skip(
                    j as int,
                ) =~= insert_entry(sorted.take(j - 1), x) + sorted.skip(j - 1));
                let now_head = cur.take(j - 1);
                let want_head = sorted.take(j - 1);
                assert(now_head =~= want_head) by {
                    assert forall|k: int| 0 <= k < j - 1 implies #[trigger] now_head[k]
                        == want_head[k] by {
                        assert(was.take(j as int)[k] == sorted.take(j as int)[k]);
                    }
                }
                assert(cur.skip(i + 1) =~= was.skip(i + 1));
                assert forall|k: int| j - 1 < k <= i implies #[trigger] cur[k] == sorted[k - 1] by {
                    if k > j {
                        assert(was[k] == sorted[k - 1]);
                    }
                }
            }
            j -= 1;
        }
        proof {
            let cur = entries(buf, ply as int, num_moves as int);
            let head = sorted.take(j as int);
            if j > 0 {
                assert(cur[j - 1] == cur.take(j as int)[j - 1]);
                assert(head.last() == sorted[j - 1]);
                assert(buf.score_of(ply as int, j - 1) == cur[j - 1].2);
                assert(buf.score_of(ply as int, j as int) == cur[j as int].2);
                assert(insert_entry(head, x) == head.push(x));
            } else {
                assert(head =~= Seq::<(int, int, int)>::empty());
                assert(insert_entry(head, x) =~= seq![x]);
            }
            let now_all = cur.take(i + 1);
            let want_all = head.push(x) + sorted.skip(j as int);
            assert(now_all =~= want_all) by {
                assert forall|k: int| 0 <= k < i + 1 implies #[trigger] now_all[k] == want_all[k] by {
                    if k < j {
                        assert(cur.take(j as int)[k] == head[k]);
                    } else if k > j {
                        assert(cur[k] == sorted[k - 1]);
                    }
                }
            }
            assert(given.take(i + 1).drop_last() =~= given.take(i as int));
            assert(given.take(i + 1).last() == x);
        }
        proof {
            let p = ply as int;
            assert forall|a: int, b: int| 0 <= a < b < i + 1 implies #[trigger] buf.score_of(p, a)
                >= #[trigger] buf.score_of(p, b) by {
                if b == j && j > 0 {
                    assert(buf.score_of(p, j - 1) >= buf.score_of(p, j as int));
                    if a < j - 1 {
                        assert(buf.score_of(p, a) >= buf.score_of(p, j - 1));
                    }
                }
            }
        }
        i += 1;
    }
    proof {
        let p = ply as int;
        let cur = entries(buf, p, num_moves as int);
        assert(cur.take(num_moves as int) =~= cur);
        assert(given.take(num_moves as int) =~= given);
        assert(buf.moves(p, num_moves as int) =~= entry_moves(cur));
    }
}

} // verus!
