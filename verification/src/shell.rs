//! The shell round the search: from a request in plain values to the
//! arguments of the search, and from its result to the response.
//!
//! A tile comes as its two pip values in either order. The end of a move in
//! the caller's list of legal moves comes as a code: `END_LEFT`, `END_RIGHT`,
//! or any other number that the caller keeps for another name.
use vstd::prelude::*;
use crate::lookup::{
    TILE_HIGH, TILE_LOW, has_tile, lemma_hand_ops, lemma_tile_bit, lemma_tile_index,
    lemma_tile_tables, tile_high, tile_id_to_index, tile_index, tile_low, valid_hand,
};
use crate::movegen::{board_ok, move_list};
use crate::eval::tiles_left;
use crate::model::{SearchModel, begun, searched};
use crate::position::{Position, valid_board, valid_placements};
use crate::search::{
    Engine, SearchResult, choose_move, moves_of, root_position, stopped_after,
};

verus! {

/// The code of the left end.
pub const END_LEFT: u32 = 0;

/// The code of the right end.
pub const END_RIGHT: u32 = 1;

/// A tile by its pip values, in either order.
#[derive(Clone, Copy)]
pub struct TileDesc {
    pub low: i8,
    pub high: i8,
}

/// One turn of the game so far: a placement with the board after it, or a
/// pass.
#[derive(Clone, Copy)]
pub struct MoveHistoryEntry {
    pub player_is_ai: bool,
    pub pass: bool,
    pub tile_low: i8,
    pub tile_high: i8,
    pub board_left: i8,
    pub board_right: i8,
}

/// The standing of the match.
#[derive(Clone, Copy)]
pub struct MatchScore {
    pub ai: i32,
    pub human: i32,
}

/// A move that the caller holds to be legal.
#[derive(Clone, Copy)]
pub struct LegalMoveDesc {
    pub tile_low: i8,
    pub tile_high: i8,
    pub end: u32,
}

/// The records of the two last placements, as the search takes them.
#[derive(Clone, Copy)]
pub struct Placements {
    pub p1_who: i8,
    pub p1_l: i8,
    pub p1_r: i8,
    pub p1_tile: i8,
    pub p2_who: i8,
    pub p2_l: i8,
    pub p2_r: i8,
}

/// The move of a response: a tile by its low and high value, unless
/// `has_tile` is false, and the code of an end.
#[derive(Clone, Copy)]
pub struct ChosenMove {
    pub has_tile: bool,
    pub tile_low: i8,
    pub tile_high: i8,
    pub end: u32,
}

/// A root move of the analysis with its score.
#[derive(Clone, Copy)]
pub struct AnalysisEntry {
    pub tile_low: i8,
    pub tile_high: i8,
    pub end: u32,
    pub score: i32,
}

/// A request for a move.
pub struct SearchRequest {
    pub ai_tiles: Vec<TileDesc>,
    pub human_tiles: Vec<TileDesc>,
    pub board_empty: bool,
    pub left: Option<i8>,
    pub right: Option<i8>,
    pub move_history: Vec<MoveHistoryEntry>,
    pub legal_moves: Vec<LegalMoveDesc>,
    pub match_score: Option<MatchScore>,
    /// In milliseconds; 0 for the default.
    pub time_budget: u64,
}

/// The response to a request.
pub struct SearchResponse {
    pub chosen: ChosenMove,
    pub best_score: i32,
    pub depth: i32,
    pub nodes: u32,
    pub analysis: Vec<AnalysisEntry>,
    pub tt_probes: u32,
    pub tt_hits: u32,
    pub tt_cutoffs: u32,
    pub tt_hints: u32,
}

/// The smaller of two pip values.
pub open spec fn low_of(a: i8, b: i8) -> int {
    if a <= b {
        a as int
    } else {
        b as int
    }
}

/// The larger of two pip values.
pub open spec fn high_of(a: i8, b: i8) -> int {
    if a <= b {
        b as int
    } else {
        a as int
    }
}

/// Both values are pip values.
pub open spec fn pips_ok(a: i8, b: i8) -> bool {
    0 <= a <= 6 && 0 <= b <= 6
}

/// Every tile of the list is a tile of the set.
pub open spec fn tiles_ok(tiles: Seq<TileDesc>) -> bool {
    forall|i: int| 0 <= i < tiles.len() ==> pips_ok((#[trigger] tiles[i]).low, tiles[i].high)
}

/// The hand that holds the tiles of the list.
pub open spec fn hand_of(tiles: Seq<TileDesc>) -> i32
    decreases tiles.len(),
{
    if tiles.len() == 0 {
        0
    } else {
        hand_of(tiles.drop_last()) | (1i32 << (tile_index(
            low_of(tiles.last().low, tiles.last().high),
            high_of(tiles.last().low, tiles.last().high),
        ) as u32))
    }
}

/// The index of the last placement among the first `n` turns; -1 where there
/// is none.
pub open spec fn last_placement(history: Seq<MoveHistoryEntry>, n: int) -> int
    decreases n,
{
    if n <= 0 {
        -1
    } else if !history[n - 1].pass {
        n - 1
    } else {
        last_placement(history, n - 1)
    }
}

/// The records of the two last placements of the game so far: who placed,
/// the board after the placement, and for the last one the tile.
pub open spec fn placements_of(history: Seq<MoveHistoryEntry>) -> Placements {
    let a = last_placement(history, history.len() as int);
    let b = last_placement(history, a);
    Placements {
        p1_who: if a < 0 { -1i8 } else if history[a].player_is_ai { 1i8 } else { 0i8 },
        p1_l: if a < 0 { 0i8 } else { history[a].board_left },
        p1_r: if a < 0 { 0i8 } else { history[a].board_right },
        p1_tile: if a < 0 {
            -1i8
        } else {
            tile_index(
                low_of(history[a].tile_low, history[a].tile_high),
                high_of(history[a].tile_low, history[a].tile_high),
            ) as i8
        },
        p2_who: if b < 0 { -1i8 } else if history[b].player_is_ai { 1i8 } else { 0i8 },
        p2_l: if b < 0 { 0i8 } else { history[b].board_left },
        p2_r: if b < 0 { 0i8 } else { history[b].board_right },
    }
}

/// The records where no tile has been placed yet.
pub open spec fn no_placements() -> Placements {
    Placements {
        p1_who: (-1) as i8,
        p1_l: 0,
        p1_r: 0,
        p1_tile: (-1) as i8,
        p2_who: (-1) as i8,
        p2_l: 0,
        p2_r: 0,
    }
}

/// The records without the placement before the last.
pub open spec fn without_second(p: Placements) -> Placements {
    Placements { p2_who: (-1) as i8, p2_l: 0, p2_r: 0, ..p }
}

/// The history can be read: the tile of its last placement is a tile of the
/// set.
pub open spec fn history_ok(history: Seq<MoveHistoryEntry>) -> bool {
    let a = last_placement(history, history.len() as int);
    a >= 0 ==> pips_ok(history[a].tile_low, history[a].tile_high)
}

/// The move `m` places the tile `(low, high)`, on the end `end` where one is
/// given.
pub open spec fn move_matches(m: LegalMoveDesc, low: int, high: int, end: Option<u32>) -> bool {
    low_of(m.tile_low, m.tile_high) == low && high_of(m.tile_low, m.tile_high) == high && (end
        matches Some(e) ==> m.end == e)
}

/// The index from `k` on of the first move of the list that matches; the
/// length of the list where none does.
pub open spec fn first_match(
    moves: Seq<LegalMoveDesc>,
    low: int,
    high: int,
    end: Option<u32>,
    k: int,
) -> int
    decreases moves.len() - k,
{
    if k < 0 || k >= moves.len() {
        moves.len() as int
    } else if move_matches(moves[k], low, high, end) {
        k
    } else {
        first_match(moves, low, high, end, k + 1)
    }
}

/// The move `m` as the move of a response.
pub open spec fn chosen_from(m: LegalMoveDesc) -> ChosenMove {
    ChosenMove {
        has_tile: true,
        tile_low: low_of(m.tile_low, m.tile_high) as i8,
        tile_high: high_of(m.tile_low, m.tile_high) as i8,
        end: m.end,
    }
}

/// The move of the response to a search that chose tile `best_tile_idx` on
/// end `best_end`, held against the caller's legal moves.
///
/// The wanted tile is the chosen tile, or the tile of the first legal move
/// where none was chosen; the wanted end is the chosen end, or the end of
/// the first legal move where the chosen end is neither left nor right.
/// The move is the wanted tile on the wanted end where that is a legal move;
/// else the wanted tile on the end of the first legal move of that tile;
/// else the first legal move; and without a legal move no tile, on the left.
pub open spec fn chosen_move(best_tile_idx: i8, best_end: i8, legal: Seq<LegalMoveDesc>) -> ChosenMove {
    let none = ChosenMove { has_tile: false, tile_low: 0, tile_high: 0, end: END_LEFT };
    let has_tile = best_tile_idx >= 0 || legal.len() > 0;
    let low = if best_tile_idx >= 0 {
        tile_low(best_tile_idx as int)
    } else if legal.len() > 0 {
        low_of(legal[0].tile_low, legal[0].tile_high)
    } else {
        0
    };
    let high = if best_tile_idx >= 0 {
        tile_high(best_tile_idx as int)
    } else if legal.len() > 0 {
        high_of(legal[0].tile_low, legal[0].tile_high)
    } else {
        0
    };
    let end = if best_end == 0 {
        END_LEFT
    } else if best_end == 1 {
        END_RIGHT
    } else if legal.len() > 0 {
        legal[0].end
    } else {
        END_LEFT
    };
    let exact = first_match(legal, low, high, Some(end), 0);
    let by_tile = first_match(legal, low, high, None, 0);
    if has_tile && exact < legal.len() {
        ChosenMove { has_tile: true, tile_low: low as i8, tile_high: high as i8, end }
    } else if has_tile && by_tile < legal.len() {
        ChosenMove {
            has_tile: true,
            tile_low: low as i8,
            tile_high: high as i8,
            end: legal[by_tile].end,
        }
    } else if legal.len() > 0 {
        chosen_from(legal[0])
    } else {
        none
    }
}

/// The list with `x` put in behind the last entry that does not score less:
/// the entries stay in the order of descending score, and among equal scores
/// in the order of their arrival.
pub open spec fn insert_by_score(sorted: Seq<AnalysisEntry>, x: AnalysisEntry) -> Seq<AnalysisEntry>
    decreases sorted.len(),
{
    if sorted.len() == 0 {
        seq![x]
    } else if sorted.last().score < x.score {
        insert_by_score(sorted.drop_last(), x).push(sorted.last())
    } else {
        sorted.push(x)
    }
}

/// The entries by descending score, entries of equal score in their order.
pub open spec fn sorted_by_score(entries: Seq<AnalysisEntry>) -> Seq<AnalysisEntry>
    decreases entries.len(),
{
    if entries.len() == 0 {
        entries
    } else {
        insert_by_score(sorted_by_score(entries.drop_last()), entries.last())
    }
}

/// The entry of the analysis for a scored root move.
pub open spec fn entry_of(scored: (i8, i8, i32)) -> AnalysisEntry {
    AnalysisEntry {
        tile_low: tile_low(scored.0 as int) as i8,
        tile_high: tile_high(scored.0 as int) as i8,
        end: if scored.1 == 0 { END_LEFT } else { END_RIGHT },
        score: scored.2,
    }
}

/// The entries of the analysis for the scored root moves, in their order.
pub open spec fn entries_of(scores: Seq<(i8, i8, i32)>) -> Seq<AnalysisEntry> {
    Seq::new(scores.len(), |i: int| entry_of(scores[i]))
}

/// The smaller and the larger of two pip values.
pub fn low_high(a: i8, b: i8) -> (pair: (i8, i8))
    ensures
        pair.0 == low_of(a, b),
        pair.1 == high_of(a, b),
{
    if a <= b {
        (a, b)
    } else {
        (b, a)
    }
}

/// Whether every tile of the list is a tile of the set.
pub fn tiles_are_valid(tiles: &Vec<TileDesc>) -> (ok: bool)
    ensures
        ok == tiles_ok(tiles@),
{
    let mut i: usize = 0;
    while i < tiles.len()
        invariant
            i <= tiles.len(),
            forall|k: int| 0 <= k < i ==> pips_ok((#[trigger] tiles@[k]).low, tiles@[k].high),
        decreases tiles.len() - i,
    {
        let t: TileDesc = tiles[i];
        if !(0 <= t.low && t.low <= 6 && 0 <= t.high && t.high <= 6) {
            return false;
        }
        i += 1;
    }
    true
}

/// The hand of the tiles of a list holds exactly those tiles.
pub proof fn lemma_hand_of(tiles: Seq<TileDesc>)
    requires
        tiles_ok(tiles),
    ensures
        valid_hand(hand_of(tiles)),
        forall|t: int|
            has_tile(hand_of(tiles), t) <==> exists|i: int|
                0 <= i < tiles.len() && tile_index(
                    low_of((#[trigger] tiles[i]).low, tiles[i].high),
                    high_of(tiles[i].low, tiles[i].high),
                ) == t,
    decreases tiles.len(),
{
    if tiles.len() == 0 {
        assert(!has_tile(0i32, 0)) by {
            crate::lookup::lemma_hand_tiles(0);
        }
        assert forall|t: int| !has_tile(0i32, t) by {
            crate::lookup::lemma_hand_tiles(0);
            if has_tile(0i32, t) {
                assert(crate::lookup::hand_tiles(0).contains(t));
            }
        }
    } else {
        let init = tiles.drop_last();
        let last = tiles.last();
        let idx = tile_index(low_of(last.low, last.high), high_of(last.low, last.high));
        assert(pips_ok(last.low, last.high));
        assert forall|i: int| 0 <= i < init.len() implies pips_ok(
            (#[trigger] init[i]).low,
            init[i].high,
        ) by {
            assert(init[i] == tiles[i]);
        }
        lemma_hand_of(init);
        lemma_tile_index(low_of(last.low, last.high), high_of(last.low, last.high));
        lemma_tile_bit(idx);
        lemma_hand_ops(hand_of(init), 1i32 << (idx as u32));
        assert forall|t: int|
            has_tile(hand_of(tiles), t) <==> exists|i: int|
                0 <= i < tiles.len() && tile_index(
                    low_of((#[trigger] tiles[i]).low, tiles[i].high),
                    high_of(tiles[i].low, tiles[i].high),
                ) == t by {
            if has_tile(hand_of(tiles), t) {
                if has_tile(hand_of(init), t) {
                    let i = choose|i: int|
                        0 <= i < init.len() && tile_index(
                            low_of((#[trigger] init[i]).low, init[i].high),
                            high_of(init[i].low, init[i].high),
                        ) == t;
                    assert(tiles[i] == init[i]);
                } else {
                    assert(tiles[tiles.len() - 1] == last);
                }
            }
            if exists|i: int|
                0 <= i < tiles.len() && tile_index(
                    low_of((#[trigger] tiles[i]).low, tiles[i].high),
                    high_of(tiles[i].low, tiles[i].high),
                ) == t {
                let i = choose|i: int|
                    0 <= i < tiles.len() && tile_index(
                        low_of((#[trigger] tiles[i]).low, tiles[i].high),
                        high_of(tiles[i].low, tiles[i].high),
                    ) == t;
                if i < init.len() {
                    assert(init[i] == tiles[i]);
                }
            }
        }
    }
}

/// The hand that holds the tiles of the list.
pub fn hand_from_tiles(tiles: &Vec<TileDesc>) -> (hand: i32)
    requires
        tiles_ok(tiles@),
    ensures
        hand == hand_of(tiles@),
        valid_hand(hand),
{
    let mut hand: i32 = 0;
    let mut i: usize = 0;
    proof {
        assert(tiles@.take(0) =~= Seq::<TileDesc>::empty());
        lemma_hand_of(tiles@.take(0));
    }
    while i < tiles.len()
        invariant
            i <= tiles.len(),
            tiles_ok(tiles@),
            hand == hand_of(tiles@.take(i as int)),
            valid_hand(hand),
        decreases tiles.len() - i,
    {
        let t: TileDesc = tiles[i];
        assert(pips_ok(tiles@[i as int].low, tiles@[i as int].high));
        let idx: usize = tile_id_to_index(t.low, t.high);
        proof {
            assert(tiles@.take(i + 1).drop_last() =~= tiles@.take(i as int));
            lemma_tile_bit(idx as int);
            lemma_hand_ops(hand, 1i32 << (idx as u32));
        }
        hand = hand | (1i32 << idx);
        i += 1;
    }
    assert(tiles@.take(tiles.len() as int) =~= tiles@);
    hand
}

/// Whether the history can be read (see `history_ok`).
pub fn history_is_valid(history: &Vec<MoveHistoryEntry>) -> (ok: bool)
    ensures
        ok == history_ok(history@),
{
    let mut i: usize = history.len();
    while i > 0
        invariant
            i <= history.len(),
            last_placement(history@, history.len() as int) == last_placement(history@, i as int),
        decreases i,
    {
        let entry: MoveHistoryEntry = history[i - 1];
        if !entry.pass {
            return 0 <= entry.tile_low && entry.tile_low <= 6 && 0 <= entry.tile_high
                && entry.tile_high <= 6;
        }
        i -= 1;
    }
    true
}

/// The records of the two last placements, from the game so far: the turns
/// are read from the last one back, passes are skipped, the first placement
/// found is the last placement and the second the one before.
pub fn seed_placements(history: &Vec<MoveHistoryEntry>) -> (seeded: Placements)
    requires
        history_ok(history@),
    ensures
        seeded == placements_of(history@),
{
    let mut seeded = Placements {
        p1_who: -1,
        p1_l: 0,
        p1_r: 0,
        p1_tile: -1,
        p2_who: -1,
        p2_l: 0,
        p2_r: 0,
    };
    let mut placement_count: usize = 0;
    let mut i: usize = history.len();
    let ghost mut first: int = -1;
    while i > 0 && placement_count < 2
        invariant
            i <= history.len(),
            history_ok(history@),
            placement_count <= 2,
            placement_count == 0 ==> first == -1 && last_placement(
                history@,
                history.len() as int,
            ) == last_placement(history@, i as int) && seeded == no_placements(),
            placement_count >= 1 ==> first == last_placement(history@, history.len() as int) && 0
                <= first && i <= first,
            placement_count == 1 ==> last_placement(history@, first) == last_placement(
                history@,
                i as int,
            ) && seeded == without_second(placements_of(history@)),
            placement_count == 2 ==> seeded == placements_of(history@),
        decreases i,
    {
        let entry: MoveHistoryEntry = history[i - 1];
        if !entry.pass {
            if placement_count == 0 {
                seeded.p1_who = if entry.player_is_ai { 1 } else { 0 };
                seeded.p1_l = entry.board_left;
                seeded.p1_r = entry.board_right;
                seeded.p1_tile = tile_id_to_index(entry.tile_low, entry.tile_high) as i8;
                proof {
                    first = i - 1;
                }
            } else {
                seeded.p2_who = if entry.player_is_ai { 1 } else { 0 };
                seeded.p2_l = entry.board_left;
                seeded.p2_r = entry.board_right;
            }
            placement_count += 1;
        }
        i -= 1;
    }
    seeded
}

/// The first of the moves that places the tile `(low, high)`, on the end
/// `end` where one is given.
fn find_move(moves: &Vec<LegalMoveDesc>, low: i8, high: i8, end: Option<u32>) -> (found: Option<usize>)
    ensures
        found matches Some(i) ==> i < moves.len() && first_match(
            moves@,
            low as int,
            high as int,
            end,
            0,
        ) == i,
        found is None ==> first_match(moves@, low as int, high as int, end, 0) == moves.len(),
{
    let mut i: usize = 0;
    while i < moves.len()
        invariant
            i <= moves.len(),
            first_match(moves@, low as int, high as int, end, 0) == first_match(
                moves@,
                low as int,
                high as int,
                end,
                i as int,
            ),
        decreases moves.len() - i,
    {
        let m: LegalMoveDesc = moves[i];
        let (lo, hi) = low_high(m.tile_low, m.tile_high);
        let end_ok: bool = match end {
            Some(e) => m.end == e,
            None => true,
        };
        if lo == low && hi == high && end_ok {
            return Some(i);
        }
        i += 1;
    }
    None
}

/// The first legal move that places the tile `(low, high)` on the end `end`.
pub fn find_legal_move(moves: &Vec<LegalMoveDesc>, low: i8, high: i8, end: u32) -> (found: Option<
    usize,
>)
    ensures
        found matches Some(i) ==> i < moves.len() && first_match(
            moves@,
            low as int,
            high as int,
            Some(end),
            0,
        ) == i,
        found is None ==> first_match(moves@, low as int, high as int, Some(end), 0) == moves.len(),
{
    find_move(moves, low, high, Some(end))
}

/// The first legal move that places the tile `(low, high)`.
pub fn find_legal_move_by_tile(moves: &Vec<LegalMoveDesc>, low: i8, high: i8) -> (found: Option<
    usize,
>)
    ensures
        found matches Some(i) ==> i < moves.len() && first_match(
            moves@,
            low as int,
            high as int,
            None,
            0,
        ) == i,
        found is None ==> first_match(moves@, low as int, high as int, None, 0) == moves.len(),
{
    find_move(moves, low, high, None)
}

/// The move of the response (see `chosen_move`).
pub fn select_legal_move(best_tile_idx: i8, best_end: i8, legal_moves: &Vec<LegalMoveDesc>) -> (chosen:
    ChosenMove)
    requires
        best_tile_idx < 28,
    ensures
        chosen == chosen_move(best_tile_idx, best_end, legal_moves@),
{
    let none = ChosenMove { has_tile: false, tile_low: 0, tile_high: 0, end: END_LEFT };
    let mut has_tile: bool = false;
    let mut low: i8 = 0;
    let mut high: i8 = 0;
    if best_tile_idx >= 0 {
        proof {
            lemma_tile_tables(best_tile_idx as int);
        }
        has_tile = true;
        low = TILE_LOW[best_tile_idx as usize];
        high = TILE_HIGH[best_tile_idx as usize];
    } else if legal_moves.len() > 0 {
        let first: LegalMoveDesc = legal_moves[0];
        let (lo, hi) = low_high(first.tile_low, first.tile_high);
        has_tile = true;
        low = lo;
        high = hi;
    }
    let end: u32 = if best_end == 0 {
        END_LEFT
    } else if best_end == 1 {
        END_RIGHT
    } else if legal_moves.len() > 0 {
        legal_moves[0].end
    } else {
        END_LEFT
    };
    if has_tile {
        match find_legal_move(legal_moves, low, high, end) {
            Some(_i) => {
                return ChosenMove { has_tile: true, tile_low: low, tile_high: high, end };
            },
            None => {},
        }
        match find_legal_move_by_tile(legal_moves, low, high) {
            Some(i) => {
                return ChosenMove {
                    has_tile: true,
                    tile_low: low,
                    tile_high: high,
                    end: legal_moves[i].end,
                };
            },
            None => {},
        }
    }
    if legal_moves.len() > 0 {
        let first: LegalMoveDesc = legal_moves[0];
        let (lo, hi) = low_high(first.tile_low, first.tile_high);
        ChosenMove { has_tile: true, tile_low: lo, tile_high: hi, end: first.end }
    } else {
        none
    }
}

/// Sorts the analysis by descending score; entries of equal score keep
/// their order.
pub fn sort_analysis(entries: &mut Vec<AnalysisEntry>)
    ensures
        final(entries)@ == sorted_by_score(old(entries)@),
{
    let ghost orig = entries@;
    let n: usize = entries.len();
    let mut i: usize = 0;
    proof {
        assert(orig.take(0) =~= Seq::<AnalysisEntry>::empty());
        assert(entries@.skip(0) =~= orig.skip(0));
    }
    while i < n
        invariant
            i <= n,
            n == orig.len(),
            entries@.len() == n,
            entries@.take(i as int) == sorted_by_score(orig.take(i as int)),
            entries@.skip(i as int) == orig.skip(i as int),
        decreases n - i,
    {
        let ghost sorted = sorted_by_score(orig.take(i as int));
        let ghost x = orig[i as int];
        proof {
            lemma_sorted_len(orig.take(i as int));
            assert(entries@[i as int] == entries@.skip(i as int)[0]);
            assert(sorted.take(i as int) =~= sorted);
            assert(sorted.skip(i as int) =~= Seq::<AnalysisEntry>::empty());
            assert(insert_by_score(sorted.take(i as int), x) + sorted.skip(i as int)
                =~= insert_by_score(sorted, x));
            assert(entries@.skip(i + 1) =~= entries@.skip(i as int).skip(1));
            assert(orig.skip(i + 1) =~= orig.skip(i as int).skip(1));
            assert forall|k: int| 0 <= k < i implies entries@.take(i as int)[k] == sorted[k] by {}
        }
        let mut j: usize = i;
        while j > 0 && entries[j - 1].score < entries[j].score
            invariant
                j <= i < n,
                n == orig.len(),
                entries@.len() == n,
                sorted.len() == i,
                x == orig[i as int],
                entries@.take(j as int) == sorted.take(j as int),
                entries@[j as int] == x,
                forall|k: int| j < k <= i ==> entries@[k] == sorted[k - 1],
                entries@.skip(i + 1) == orig.skip(i + 1),
                insert_by_score(sorted, x) == insert_by_score(sorted.take(j as int), x) + sorted.skip(
                    j as int,
                ),
            decreases j,
        {
            let ghost before = entries@;
            let left: AnalysisEntry = entries[j - 1];
            let right: AnalysisEntry = entries[j];
            entries[j - 1] = right;
            entries[j] = left;
            proof {
                assert(before[j - 1] == before.take(j as int)[j - 1]);
                assert(left == sorted[j - 1]);
                let head = sorted.take(j as int);
                assert(head.last() == sorted[j - 1]);
                assert(head.drop_last() =~= sorted.take(j - 1));
                assert(insert_by_score(head, x) == insert_by_score(sorted.take(j - 1), x).push(
                    sorted[j - 1],
                ));
                assert(insert_by_score(sorted.take(j - 1), x).push(sorted[j - 1]) + sorted.skip(
                    j as int,
                ) =~= insert_by_score(sorted.take(j - 1), x) + sorted.skip(j - 1));
                let now_head = entries@.take(j - 1);
                let want_head = sorted.take(j - 1);
                assert(now_head =~= want_head) by {
                    assert forall|k: int| 0 <= k < j - 1 implies #[trigger] now_head[k]
                        == want_head[k] by {
                        assert(before.take(j as int)[k] == sorted.take(j as int)[k]);
                    }
                }
                assert(entries@.skip(i + 1) =~= before.skip(i + 1));
            }
            j -= 1;
        }
        proof {
            let head = sorted.take(j as int);
            if j > 0 {
                assert(entries@[j - 1] == entries@.take(j as int)[j - 1]);
                assert(head.last() == sorted[j - 1]);
                assert(insert_by_score(head, x) == head.push(x));
            } else {
                assert(head =~= Seq::<AnalysisEntry>::empty());
                assert(insert_by_score(head, x) =~= seq![x]);
            }
            let now_all = entries@.take(i + 1);
            let want_all = head.push(x) + sorted.skip(j as int);
            assert(now_all =~= want_all) by {
                assert forall|k: int| 0 <= k < i + 1 implies #[trigger] now_all[k] == want_all[k] by {
                    if k < j {
                        assert(entries@.take(j as int)[k] == head[k]);
                    }
                }
            }
            assert(orig.take(i + 1).drop_last() =~= orig.take(i as int));
            assert(orig.take(i + 1).last() == x);
            assert(entries@.skip(i + 1) == orig.skip(i + 1));
        }
        i += 1;
    }
    proof {
        assert(entries@.take(n as int) =~= entries@);
        assert(orig.take(n as int) =~= orig);
    }
}

/// Sorting keeps the number of entries.
pub proof fn lemma_sorted_len(entries: Seq<AnalysisEntry>)
    ensures
        sorted_by_score(entries).len() == entries.len(),
    decreases entries.len(),
{
    if entries.len() > 0 {
        lemma_sorted_len(entries.drop_last());
        lemma_insert_len(sorted_by_score(entries.drop_last()), entries.last());
    }
}

proof fn lemma_insert_len(sorted: Seq<AnalysisEntry>, x: AnalysisEntry)
    ensures
        insert_by_score(sorted, x).len() == sorted.len() + 1,
    decreases sorted.len(),
{
    if sorted.len() > 0 && sorted.last().score < x.score {
        lemma_insert_len(sorted.drop_last(), x);
    }
}

/// The entries stand by descending score.
pub open spec fn by_descending_score(entries: Seq<AnalysisEntry>) -> bool {
    forall|a: int, b: int|
        0 <= a < b < entries.len() ==> (#[trigger] entries[a]).score >= (#[trigger] entries[b]).score
}

proof fn lemma_insert_sorted(sorted: Seq<AnalysisEntry>, x: AnalysisEntry)
    requires
        by_descending_score(sorted),
    ensures
        by_descending_score(insert_by_score(sorted, x)),
        insert_by_score(sorted, x).to_multiset() == sorted.to_multiset().insert(x),
        insert_by_score(sorted, x).len() == sorted.len() + 1,
        forall|k: int|
            0 <= k < insert_by_score(sorted, x).len() ==> #[trigger] insert_by_score(sorted, x)[k]
                == x || sorted.contains(insert_by_score(sorted, x)[k]),
    decreases sorted.len(),
{
    broadcast use vstd::seq_lib::group_to_multiset_ensures;

    let out = insert_by_score(sorted, x);
    if sorted.len() == 0 {
        assert(sorted =~= Seq::<AnalysisEntry>::empty());
        assert(out =~= Seq::<AnalysisEntry>::empty().push(x));
    } else if sorted.last().score < x.score {
        let init = sorted.drop_last();
        let last = sorted.last();
        assert forall|a: int, b: int| 0 <= a < b < init.len() implies (#[trigger] init[a]).score >= (
        #[trigger] init[b]).score by {
            assert(init[a] == sorted[a]);
            assert(init[b] == sorted[b]);
        }
        lemma_insert_sorted(init, x);
        let inner = insert_by_score(init, x);
        assert(sorted =~= init.push(last));
        assert forall|a: int, b: int| 0 <= a < b < out.len() implies (#[trigger] out[a]).score >= (
        #[trigger] out[b]).score by {
            if b == out.len() - 1 {
                assert(out[a] == inner[a]);
                if inner[a] != x {
                    assert(init.contains(inner[a]));
                    let k = choose|k: int| 0 <= k < init.len() && init[k] == inner[a];
                    assert(sorted[k] == init[k]);
                    assert(sorted[k].score >= sorted[sorted.len() - 1].score);
                }
            } else {
                assert(out[a] == inner[a]);
                assert(out[b] == inner[b]);
            }
        }
        assert(out.to_multiset() =~= sorted.to_multiset().insert(x));
        assert forall|k: int| 0 <= k < out.len() implies #[trigger] out[k] == x || sorted.contains(
            out[k],
        ) by {
            if k < inner.len() {
                assert(out[k] == inner[k]);
                if inner[k] != x {
                    let m = choose|m: int| 0 <= m < init.len() && init[m] == inner[k];
                    assert(sorted[m] == init[m]);
                }
            } else {
                assert(out[k] == sorted[sorted.len() - 1]);
            }
        }
    } else {
        assert forall|a: int, b: int| 0 <= a < b < out.len() implies (#[trigger] out[a]).score >= (
        #[trigger] out[b]).score by {
            if b == out.len() - 1 {
                assert(out[a] == sorted[a]);
                if a < sorted.len() - 1 {
                    assert(sorted[a].score >= sorted[sorted.len() - 1].score);
                }
            } else {
                assert(out[a] == sorted[a]);
                assert(out[b] == sorted[b]);
            }
        }
        assert forall|k: int| 0 <= k < out.len() implies #[trigger] out[k] == x || sorted.contains(
            out[k],
        ) by {
            if k < sorted.len() {
                assert(out[k] == sorted[k]);
            }
        }
    }
}

/// The sorted entries stand by descending score and are the entries that
/// were given, each as often as it was given.
pub proof fn lemma_sorted_by_score(entries: Seq<AnalysisEntry>)
    ensures
        by_descending_score(sorted_by_score(entries)),
        sorted_by_score(entries).to_multiset() == entries.to_multiset(),
        sorted_by_score(entries).len() == entries.len(),
    decreases entries.len(),
{
    broadcast use vstd::seq_lib::group_to_multiset_ensures;

    if entries.len() > 0 {
        let init = entries.drop_last();
        lemma_sorted_by_score(init);
        lemma_insert_sorted(sorted_by_score(init), entries.last());
        assert(entries =~= init.push(entries.last()));
    }
}

/// A match from `k` on is a move of the list that matches, and the first
/// such.
pub proof fn lemma_first_match(
    moves: Seq<LegalMoveDesc>,
    low: int,
    high: int,
    end: Option<u32>,
    k: int,
)
    requires
        0 <= k <= moves.len(),
    ensures
        k <= first_match(moves, low, high, end, k) <= moves.len(),
        first_match(moves, low, high, end, k) < moves.len() ==> move_matches(
            moves[first_match(moves, low, high, end, k)],
            low,
            high,
            end,
        ),
        forall|i: int|
            k <= i < first_match(moves, low, high, end, k) ==> !move_matches(
                #[trigger] moves[i],
                low,
                high,
                end,
            ),
    decreases moves.len() - k,
{
    if k < moves.len() && !move_matches(moves[k], low, high, end) {
        lemma_first_match(moves, low, high, end, k + 1);
    }
}

/// The move of a response is one of the caller's legal moves where there is
/// any, and no tile on the left where there is none.
pub proof fn lemma_chosen_is_legal(best_tile_idx: i8, best_end: i8, legal: Seq<LegalMoveDesc>)
    requires
        best_tile_idx < 28,
    ensures
        legal.len() > 0 ==> exists|i: int|
            0 <= i < legal.len() && chosen_move(best_tile_idx, best_end, legal) == chosen_from(
                #[trigger] legal[i],
            ),
        legal.len() == 0 ==> !chosen_move(best_tile_idx, best_end, legal).has_tile && chosen_move(
            best_tile_idx,
            best_end,
            legal,
        ).end == END_LEFT,
{
    if legal.len() > 0 {
        let low = if best_tile_idx >= 0 {
            tile_low(best_tile_idx as int)
        } else {
            low_of(legal[0].tile_low, legal[0].tile_high)
        };
        let high = if best_tile_idx >= 0 {
            tile_high(best_tile_idx as int)
        } else {
            high_of(legal[0].tile_low, legal[0].tile_high)
        };
        let end = if best_end == 0 {
            END_LEFT
        } else if best_end == 1 {
            END_RIGHT
        } else {
            legal[0].end
        };
        let exact = first_match(legal, low, high, Some(end), 0);
        let by_tile = first_match(legal, low, high, None, 0);
        lemma_first_match(legal, low, high, Some(end), 0);
        lemma_first_match(legal, low, high, None, 0);
        let chosen = chosen_move(best_tile_idx, best_end, legal);
        if exact < legal.len() {
            assert(chosen == chosen_from(legal[exact]));
        } else if by_tile < legal.len() {
            assert(chosen == chosen_from(legal[by_tile]));
        } else {
            assert(chosen == chosen_from(legal[0]));
        }
    } else {
        assert(first_match(legal, 0, 0, None, 0) == 0);
    }
}

/// The two ends of the board of a request: 7 for each on the empty board,
/// and for an end that is not given.
pub open spec fn ends_of(board_empty: bool, left: Option<i8>, right: Option<i8>) -> (i8, i8) {
    if board_empty {
        (7i8, 7i8)
    } else {
        (
            match left {
                Some(v) => v,
                None => 7i8,
            },
            match right {
                Some(v) => v,
                None => 7i8,
            },
        )
    }
}

/// The engine's lead in the match; 0 where no standing is given.
pub open spec fn lead_of(score: Option<MatchScore>) -> int {
    match score {
        Some(ms) => ms.ai - ms.human,
        None => 0,
    }
}

/// The arguments of the search for a request.
#[derive(Clone, Copy)]
pub struct SearchArgs {
    pub ai_hand: i32,
    pub human_hand: i32,
    pub left: i8,
    pub right: i8,
    pub match_diff: i32,
    pub placements: Placements,
}

impl SearchRequest {
    /// The request can be served: its tiles are tiles of the set, its ends
    /// are a board, the records of its two last placements can be read by
    /// the search, and the lead in the match is a 32-bit number.
    pub open spec fn valid(&self) -> bool {
        let ends = ends_of(self.board_empty, self.left, self.right);
        let p = placements_of(self.move_history@);
        &&& tiles_ok(self.ai_tiles@)
        &&& tiles_ok(self.human_tiles@)
        &&& valid_board(ends.0 as int, ends.1 as int)
        &&& history_ok(self.move_history@)
        &&& valid_placements(
            p.p1_who as int,
            p.p1_l as int,
            p.p1_r as int,
            p.p1_tile as int,
            p.p2_who as int,
            p.p2_l as int,
            p.p2_r as int,
        )
        &&& i32::MIN <= lead_of(self.match_score) <= i32::MAX
    }

    /// The position at the root of the search for the request.
    pub open spec fn root(&self) -> Position {
        let args = self.args();
        let p = args.placements;
        root_position(
            args.ai_hand,
            args.human_hand,
            args.left,
            args.right,
            args.match_diff,
            p.p1_who,
            p.p1_l,
            p.p1_r,
            p.p1_tile,
            p.p2_who,
            p.p2_l,
            p.p2_r,
        )
    }

    /// The arguments of the search for the request.
    pub open spec fn args(&self) -> SearchArgs {
        let ends = ends_of(self.board_empty, self.left, self.right);
        SearchArgs {
            ai_hand: hand_of(self.ai_tiles@),
            human_hand: hand_of(self.human_tiles@),
            left: ends.0,
            right: ends.1,
            match_diff: lead_of(self.match_score) as i32,
            placements: placements_of(self.move_history@),
        }
    }
}

/// The response `response` answers the request `req` after `n` iterations of
/// the search, none of the iterations before the last having solved the
/// game, with the engine, which it found as `start`, left as `after`.
///
/// The move is the move that the search has chosen, held against the
/// caller's legal moves; the analysis holds the scored root moves of the
/// deepest complete iteration by descending score; the score, the depth and
/// the nodes are those of that iteration, and the counts those of the engine.
pub open spec fn answered_after(
    start: SearchModel,
    req: &SearchRequest,
    n: nat,
    response: &SearchResponse,
    after: SearchModel,
) -> bool {
    let args = req.args();
    let found = searched(begun(start, req.root()), tiles_left(args.ai_hand, args.human_hand), n);
    &&& after == found.0
    &&& response.chosen == chosen_move(found.1.best_tile_idx, found.1.best_end, req.legal_moves@)
    &&& response.analysis@ == sorted_by_score(entries_of(found.1.analysis))
    &&& response.best_score == found.1.score
    &&& response.depth == found.1.depth
    &&& response.nodes == found.1.nodes
    &&& response.tt_probes == after.probes
    &&& response.tt_hits == after.hits
    &&& response.tt_cutoffs == after.cutoffs
    &&& response.tt_hints == after.hints
    &&& forall|k: nat|
        1 <= k < n ==> !(#[trigger] searched(
            begun(start, req.root()),
            tiles_left(args.ai_hand, args.human_hand),
            k,
        )).1.solved
}

/// The two ends of the board of a request (see `ends_of`).
pub fn board_ends(board_empty: bool, left: Option<i8>, right: Option<i8>) -> (ends: (i8, i8))
    ensures
        ends == ends_of(board_empty, left, right),
{
    if board_empty {
        (7, 7)
    } else {
        (
            match left {
                Some(v) => v,
                None => 7,
            },
            match right {
                Some(v) => v,
                None => 7,
            },
        )
    }
}

/// Whether the two ends are a board.
fn ends_are_valid(left: i8, right: i8) -> (ok: bool)
    ensures
        ok == valid_board(left as int, right as int),
{
    (left == 7 && 0 <= right && right <= 7) || (0 <= left && left <= 6 && 0 <= right && right <= 6)
}

/// Whether the two ends are 7 on the left, or two pip values.
fn ends_are_readable(left: i8, right: i8) -> (ok: bool)
    ensures
        ok == board_ok(left as int, right as int),
{
    left == 7 || (0 <= left && left <= 6 && 0 <= right && right <= 6)
}

/// Whether the request can be served (see `SearchRequest::valid`).
pub fn request_is_valid(req: &SearchRequest) -> (ok: bool)
    ensures
        ok == req.valid(),
{
    if !tiles_are_valid(&req.ai_tiles) || !tiles_are_valid(&req.human_tiles) {
        return false;
    }
    let (left, right) = board_ends(req.board_empty, req.left, req.right);
    if !ends_are_valid(left, right) {
        return false;
    }
    if !history_is_valid(&req.move_history) {
        return false;
    }
    let p: Placements = seed_placements(&req.move_history);
    proof {
        let a = last_placement(req.move_history@, req.move_history@.len() as int);
        if a >= 0 {
            lemma_tile_index(
                low_of(req.move_history@[a].tile_low, req.move_history@[a].tile_high),
                high_of(req.move_history@[a].tile_low, req.move_history@[a].tile_high),
            );
        }
    }
    if p.p1_who != -1 && !ends_are_readable(p.p1_l, p.p1_r) {
        return false;
    }
    if p.p2_who != -1 && p.p1_tile != -1 && !ends_are_readable(p.p2_l, p.p2_r) {
        return false;
    }
    match req.match_score {
        Some(ms) => {
            let lead: i64 = ms.ai as i64 - ms.human as i64;
            lead >= i32::MIN as i64 && lead <= i32::MAX as i64
        },
        None => true,
    }
}

/// The arguments of the search for a request: the hands as masks, the ends
/// of the board, the lead in the match, and the records of the two last
/// placements.
pub fn search_arguments(req: &SearchRequest) -> (args: SearchArgs)
    requires
        req.valid(),
    ensures
        args == req.args(),
        valid_hand(args.ai_hand),
        valid_hand(args.human_hand),
{
    let (left, right) = board_ends(req.board_empty, req.left, req.right);
    let match_diff: i32 = match req.match_score {
        Some(ms) => ms.ai - ms.human,
        None => 0,
    };
    SearchArgs {
        ai_hand: hand_from_tiles(&req.ai_tiles),
        human_hand: hand_from_tiles(&req.human_tiles),
        left,
        right,
        match_diff,
        placements: seed_placements(&req.move_history),
    }
}

/// The analysis of a response: the scored root moves of the search, each
/// with its tile by low and high value, by descending score.
pub fn build_analysis(scores: &Vec<(i8, i8, i32)>) -> (analysis: Vec<AnalysisEntry>)
    requires
        forall|k: int| 0 <= k < scores@.len() ==> 0 <= (#[trigger] scores@[k]).0 < 28,
    ensures
        analysis@ == sorted_by_score(entries_of(scores@)),
{
    let mut analysis: Vec<AnalysisEntry> = Vec::new();
    let mut i: usize = 0;
    while i < scores.len()
        invariant
            i <= scores.len(),
            forall|k: int| 0 <= k < scores@.len() ==> 0 <= (#[trigger] scores@[k]).0 < 28,
            analysis@ == entries_of(scores@.take(i as int)),
        decreases scores.len() - i,
    {
        let (tile, end, score) = scores[i];
        proof {
            assert(0 <= scores@[i as int].0 < 28);
            lemma_tile_tables(tile as int);
        }
        let entry = AnalysisEntry {
            tile_low: TILE_LOW[tile as usize],
            tile_high: TILE_HIGH[tile as usize],
            end: if end == 0 { END_LEFT } else { END_RIGHT },
            score,
        };
        analysis.push(entry);
        proof {
            assert(entry == entry_of(scores@[i as int]));
            assert(analysis@ =~= entries_of(scores@.take(i + 1)));
        }
        i += 1;
    }
    proof {
        assert(scores@.take(scores@.len() as int) =~= scores@);
    }
    sort_analysis(&mut analysis);
    analysis
}

/// The response for the result of a search: the chosen move held against
/// the caller's legal moves (see `chosen_move`), the analysis by descending
/// score, and the counts of the search.
pub fn build_response(result: &SearchResult, legal_moves: &Vec<LegalMoveDesc>) -> (response:
    SearchResponse)
    requires
        result.best_tile_idx < 28,
        forall|k: int| 0 <= k < result.analysis@.len() ==> 0 <= (#[trigger] result.analysis@[k]).0 < 28,
    ensures
        response.chosen == chosen_move(result.best_tile_idx, result.best_end, legal_moves@),
        response.analysis@ == sorted_by_score(entries_of(result.analysis@)),
        response.best_score == result.best_score,
        response.depth == result.depth,
        response.nodes == result.nodes,
        response.tt_probes == result.tt_probes,
        response.tt_hits == result.tt_hits,
        response.tt_cutoffs == result.tt_cutoffs,
        response.tt_hints == result.tt_hints,
{
    SearchResponse {
        chosen: select_legal_move(result.best_tile_idx, result.best_end, legal_moves),
        best_score: result.best_score,
        depth: result.depth,
        nodes: result.nodes,
        analysis: build_analysis(&result.analysis),
        tt_probes: result.tt_probes,
        tt_hits: result.tt_hits,
        tt_cutoffs: result.tt_cutoffs,
        tt_hints: result.tt_hints,
    }
}

/// Serves a request: searches the position of the request within its time
/// budget and answers with a move of the caller's list of legal moves.
///
/// How many iterations the search runs is for the clock to say; for that
/// number the response is that of `answered_after`. Whatever the number, the
/// move of the response is one of the caller's legal moves where there is
/// any, and no tile on the left where there is none; and the analysis stands
/// by descending score, with one entry for each legal move of the engine's
/// hand where an iteration was complete, and none otherwise.
pub fn answer_request(engine: &mut Engine, req: &SearchRequest) -> (response: SearchResponse)
    requires
        old(engine).wf(),
        req.valid(),
    ensures
        final(engine).wf(),
        exists|n: nat|
            1 <= n <= 50 && answered_after(
                old(engine).model(),
                req,
                n,
                &response,
                final(engine).model(),
            ),
        req.legal_moves@.len() > 0 ==> exists|i: int|
            0 <= i < req.legal_moves@.len() && response.chosen == chosen_from(
                #[trigger] req.legal_moves@[i],
            ),
        req.legal_moves@.len() == 0 ==> !response.chosen.has_tile && response.chosen.end == END_LEFT,
        0 <= response.depth <= 50,
        by_descending_score(response.analysis@),
        response.analysis@.len() == if response.depth >= 1 {
            move_list(req.args().ai_hand, req.args().left as int, req.args().right as int).len()
        } else {
            0
        },
{
    let args: SearchArgs = search_arguments(req);
    let p: Placements = args.placements;
    let result: SearchResult = choose_move(
        engine,
        args.ai_hand,
        args.human_hand,
        args.left,
        args.right,
        0,
        args.match_diff,
        p.p1_who,
        p.p1_l,
        p.p1_r,
        p.p1_tile,
        p.p2_who,
        p.p2_l,
        p.p2_r,
        req.time_budget,
    );
    proof {
        let hand = args.ai_hand;
        let l = args.left as int;
        let r = args.right as int;
        if result.best_tile_idx != -1 {
            crate::lookup::lemma_hand_tiles(hand);
            assert(has_tile(hand, result.best_tile_idx as int));
        }
        assert forall|k: int| 0 <= k < result.analysis@.len() implies 0 <= (
        #[trigger] result.analysis@[k]).0 < 28 by {
            crate::lookup::lemma_hand_tiles(hand);
            assert(has_tile(hand, result.analysis@[k].0 as int));
        }
        lemma_chosen_is_legal(result.best_tile_idx, result.best_end, req.legal_moves@);
        let entries = entries_of(result.analysis@);
        lemma_sorted_by_score(entries);
        if result.depth >= 1 {
            vstd::seq_lib::to_multiset_len(moves_of(result.analysis@));
            vstd::seq_lib::to_multiset_len(move_list(hand, l, r));
        }
    }
    let response = build_response(&result, &req.legal_moves);
    proof {
        let start = begun(old(engine).model(), req.root());
        let tiles = tiles_left(args.ai_hand, args.human_hand);
        let n = choose|n: nat|
            1 <= n <= 50 && stopped_after(start, tiles, n, &result, engine.model());
        assert(answered_after(old(engine).model(), req, n, &response, engine.model()));
    }
    response
}

} // verus!
