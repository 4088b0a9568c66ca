//! Move generation: the legal `(tile, end)` pairs of a hand against the two
//! open ends of the board, written into a per-ply buffer.
use vstd::prelude::*;
use crate::bitset::{mask_bits, take_lowest, lemma_no_bits};
use crate::lookup::{
    NEW_END_LEFT, NEW_END_RIGHT, NUM_TILES, SUIT_MASK, TILE_HIGH, TILE_LOW, both_suits_pred,
    either_suit_pred, hand_tiles, has_suit, has_tile, is_tile, lemma_hand_ops, lemma_hand_tiles,
    lemma_masks, lemma_new_end_tables, lemma_suit_tiles, lemma_tile_tables, new_end_left,
    new_end_right, popcount, suit_pred, tile_high, tile_low, valid_hand,
};

verus! {

/// Deepest ply that the move buffer serves.
pub const MAX_PLY: usize = 64;

/// Entries of the move buffer: 28 for each ply.
pub const MOVE_BUF_SIZE: usize = MAX_PLY * NUM_TILES;

/// The two ends describe a board: 7 on the left is the empty board,
/// otherwise both ends are pip values.
pub open spec fn board_ok(left: int, right: int) -> bool {
    left == 7 || (0 <= left <= 6 && 0 <= right <= 6)
}

/// The tiles of `hand` that may be placed on the left end, ascending.
pub open spec fn left_tiles(hand: i32, left: int) -> Seq<int> {
    if left == 7 {
        hand_tiles(hand)
    } else {
        hand_tiles(hand).filter(suit_pred(left))
    }
}

/// The tiles of `hand` whose placement on the right end is a move of its
/// own, ascending: none on the empty board, and none where both ends show
/// the same value.
pub open spec fn right_tiles(hand: i32, left: int, right: int) -> Seq<int> {
    if left == 7 || left == right {
        Seq::empty()
    } else {
        hand_tiles(hand).filter(suit_pred(right))
    }
}

/// The tiles of `hand` that can be placed at all, ascending.
pub open spec fn playable_tiles(hand: i32, left: int, right: int) -> Seq<int> {
    if left == 7 {
        hand_tiles(hand)
    } else {
        hand_tiles(hand).filter(either_suit_pred(left, right))
    }
}

/// The given tiles, each paired with the end `end`.
pub open spec fn with_end(tiles: Seq<int>, end: int) -> Seq<(int, int)> {
    Seq::new(tiles.len(), |i: int| (tiles[i], end))
}

/// The moves of `hand` in the order of generation: the left-end moves by
/// ascending tile, then the right-end moves by ascending tile.
pub open spec fn move_list(hand: i32, left: int, right: int) -> Seq<(int, int)> {
    with_end(left_tiles(hand, left), 0) + with_end(right_tiles(hand, left, right), 1)
}

/// Placing tile `t` of `hand` on end `e` (0 left, 1 right) is a move.
pub open spec fn is_legal_move(hand: i32, left: int, right: int, t: int, e: int) -> bool {
    has_tile(hand, t) && if left == 7 {
        e == 0
    } else if e == 0 {
        has_suit(t, left)
    } else {
        e == 1 && left != right && has_suit(t, right)
    }
}

/// The ends of the board after tile `t` is placed on end `e`: on the empty
/// board the two halves of the tile; otherwise the end that was played on
/// shows the other half of the tile.
pub open spec fn ends_after(t: int, e: int, left: int, right: int) -> (int, int) {
    if left == 7 {
        (tile_low(t), tile_high(t))
    } else if e == 0 {
        (new_end_left(t, left), right)
    } else {
        (left, new_end_right(t, right))
    }
}

/// The index from `k` on of the first move of the list that is `(tile,
/// end)`; the length of the list where none is.
pub open spec fn find_move_from(list: Seq<(int, int)>, tile: int, end: int, k: int) -> int
    decreases list.len() - k,
{
    if k < 0 || k >= list.len() {
        list.len() as int
    } else if list[k] == (tile, end) {
        k
    } else {
        find_move_from(list, tile, end, k + 1)
    }
}

/// The list with the move `(tile, end)` brought to the front in exchange for
/// the move at the front; the list as it is where the move is at the front
/// already or not in the list.
pub open spec fn hinted(list: Seq<(int, int)>, tile: int, end: int) -> Seq<(int, int)> {
    let at = find_move_from(list, tile, end, 1);
    if 1 <= at < list.len() {
        list.update(0, list[at]).update(at, list[0])
    } else {
        list
    }
}

/// Per-ply move lists: tile, end and ordering score of each move, the moves
/// of ply `p` from index `p * 28` on.
pub struct MoveBuffer {
    pub tile: Vec<i8>,
    pub end: Vec<i8>,
    pub score: Vec<i32>,
}

impl MoveBuffer {
    /// The buffer has its full size.
    pub open spec fn wf(&self) -> bool {
        &&& self.tile@.len() == MOVE_BUF_SIZE
        &&& self.end@.len() == MOVE_BUF_SIZE
        &&& self.score@.len() == MOVE_BUF_SIZE
    }

    /// The tile of move `i` of ply `ply`.
    pub open spec fn tile_of(&self, ply: int, i: int) -> int {
        self.tile@[ply * 28 + i] as int
    }

    /// The end of move `i` of ply `ply`.
    pub open spec fn end_of(&self, ply: int, i: int) -> int {
        self.end@[ply * 28 + i] as int
    }

    /// The ordering score of move `i` of ply `ply`.
    pub open spec fn score_of(&self, ply: int, i: int) -> int {
        self.score@[ply * 28 + i] as int
    }

    /// The first `n` moves of ply `ply`, as `(tile, end)` pairs.
    pub open spec fn moves(&self, ply: int, n: int) -> Seq<(int, int)> {
        Seq::new(n as nat, |i: int| (self.tile_of(ply, i), self.end_of(ply, i)))
    }

    /// The moves of all plies but `ply` are those of `other`.
    pub open spec fn same_but_ply(&self, other: &MoveBuffer, ply: int) -> bool {
        &&& forall|j: int|
            0 <= j < MOVE_BUF_SIZE && !(ply * 28 <= j < ply * 28 + 28) ==> #[trigger] self.tile@[j]
                == other.tile@[j]
        &&& forall|j: int|
            0 <= j < MOVE_BUF_SIZE && !(ply * 28 <= j < ply * 28 + 28) ==> #[trigger] self.end@[j]
                == other.end@[j]
        &&& forall|j: int|
            0 <= j < MOVE_BUF_SIZE && !(ply * 28 <= j < ply * 28 + 28) ==> #[trigger] self.score@[j]
                == other.score@[j]
    }

    /// A buffer of zeros.
    pub fn new() -> (buf: MoveBuffer)
        ensures
            buf.wf(),
            forall|j: int| 0 <= j < MOVE_BUF_SIZE ==> #[trigger] buf.tile@[j] == 0,
            forall|j: int| 0 <= j < MOVE_BUF_SIZE ==> #[trigger] buf.end@[j] == 0,
            forall|j: int| 0 <= j < MOVE_BUF_SIZE ==> #[trigger] buf.score@[j] == 0,
    {
        let mut tile: Vec<i8> = Vec::new();
        let mut end: Vec<i8> = Vec::new();
        let mut score: Vec<i32> = Vec::new();
        let mut i: usize = 0;
        while i < MOVE_BUF_SIZE
            invariant
                i <= MOVE_BUF_SIZE,
                tile@.len() == i,
                end@.len() == i,
                score@.len() == i,
                forall|j: int| 0 <= j < i ==> #[trigger] tile@[j] == 0,
                forall|j: int| 0 <= j < i ==> #[trigger] end@[j] == 0,
                forall|j: int| 0 <= j < i ==> #[trigger] score@[j] == 0,
            decreases MOVE_BUF_SIZE - i,
        {
            tile.push(0);
            end.push(0);
            score.push(0);
            i += 1;
        }
        MoveBuffer { tile, end, score }
    }

    /// The moves of ply `ply` from move `from` on are those of `other`.
    pub open spec fn same_from(&self, other: &MoveBuffer, ply: int, from: int) -> bool {
        forall|i: int|
            from <= i < 28 ==> #[trigger] self.tile_of(ply, i) == other.tile_of(ply, i)
                && self.end_of(ply, i) == other.end_of(ply, i)
    }

    /// The moves of the plies below `ply` are those of `other`.
    pub open spec fn same_below(&self, other: &MoveBuffer, ply: int) -> bool {
        &&& forall|j: int| 0 <= j < ply * 28 ==> #[trigger] self.tile@[j] == other.tile@[j]
        &&& forall|j: int| 0 <= j < ply * 28 ==> #[trigger] self.end@[j] == other.end@[j]
    }

    /// Brings the move `(tile, end)` to the front of the first `num_moves`
    /// moves of ply `ply`, in exchange for the move at the front. Returns the
    /// index that the move was found at; 0 where it is at the front already
    /// or not in the list, and then the list stays as it is.
    pub fn hint_to_front(&mut self, ply: usize, num_moves: usize, tile: i8, end: i8) -> (found: usize)
        requires
            old(self).wf(),
            ply < MAX_PLY,
            num_moves <= 28,
        ensures
            final(self).wf(),
            found == 0 || 1 <= found < num_moves,
            forall|k: int|
                1 <= k < (if found == 0 { num_moves } else { found }) ==> !(#[trigger] old(
                    self,
                ).tile_of(ply as int, k) == tile && old(self).end_of(ply as int, k) == end),
            found == 0 ==> *final(self) == *old(self),
            found > 0 ==> old(self).tile_of(ply as int, found as int) == tile && old(self).end_of(
                ply as int,
                found as int,
            ) == end,
            found > 0 ==> final(self).tile@ == old(self).tile@.update(
                ply * 28 + 0,
                old(self).tile@[ply * 28 + found],
            ).update(ply * 28 + found, old(self).tile@[ply * 28 + 0]),
            found > 0 ==> final(self).end@ == old(self).end@.update(
                ply * 28 + 0,
                old(self).end@[ply * 28 + found],
            ).update(ply * 28 + found, old(self).end@[ply * 28 + 0]),
            final(self).score@ == old(self).score@,
            final(self).moves(ply as int, num_moves as int).to_multiset() == old(self).moves(
                ply as int,
                num_moves as int,
            ).to_multiset(),
            final(self).moves(ply as int, num_moves as int) == hinted(
                old(self).moves(ply as int, num_moves as int),
                tile as int,
                end as int,
            ),
            final(self).same_but_ply(old(self), ply as int),
    {
        let base: usize = ply * 28;
        let ghost list = self.moves(ply as int, num_moves as int);
        let mut mi: usize = 1;
        while mi < num_moves
            invariant
                self.wf(),
                *self == *old(self),
                base == ply * 28,
                ply < MAX_PLY,
                num_moves <= 28,
                1 <= mi,
                forall|k: int|
                    1 <= k < mi && k < num_moves ==> !(#[trigger] self.tile_of(ply as int, k) == tile
                        && self.end_of(ply as int, k) == end),
                list == self.moves(ply as int, num_moves as int),
                find_move_from(list, tile as int, end as int, 1) == find_move_from(
                    list,
                    tile as int,
                    end as int,
                    mi as int,
                ),
            decreases num_moves - mi,
        {
            proof {
                assert(list[mi as int] == (self.tile_of(ply as int, mi as int), self.end_of(
                    ply as int,
                    mi as int,
                )));
            }
            if self.tile[base + mi] == tile && self.end[base + mi] == end {
                let ghost before = self.moves(ply as int, num_moves as int);
                self.swap_moves(ply, 0, mi);
                proof {
                    assert(self.moves(ply as int, num_moves as int) =~= before.update(
                        0,
                        before[mi as int],
                    ).update(mi as int, before[0]));
                    lemma_swap_keeps_moves(before, 0, mi as int);
                }
                return mi;
            }
            mi += 1;
        }
        0
    }

    /// Exchanges the moves `a` and `b` of ply `ply`; their ordering scores
    /// stay where they are.
    pub fn swap_moves(&mut self, ply: usize, a: usize, b: usize)
        requires
            old(self).wf(),
            ply < MAX_PLY,
            a < 28,
            b < 28,
        ensures
            final(self).wf(),
            final(self).tile@ == old(self).tile@.update(
                ply * 28 + a,
                old(self).tile@[ply * 28 + b],
            ).update(ply * 28 + b, old(self).tile@[ply * 28 + a]),
            final(self).end@ == old(self).end@.update(
                ply * 28 + a,
                old(self).end@[ply * 28 + b],
            ).update(ply * 28 + b, old(self).end@[ply * 28 + a]),
            final(self).score@ == old(self).score@,
    {
        let base: usize = ply * 28;
        let tmp_t: i8 = self.tile[base + a];
        let tmp_e: i8 = self.end[base + a];
        let other_t: i8 = self.tile[base + b];
        let other_e: i8 = self.end[base + b];
        self.tile[base + a] = other_t;
        self.end[base + a] = other_e;
        self.tile[base + b] = tmp_t;
        self.end[base + b] = tmp_e;
    }

    /// Exchanges the moves `a` and `b` of ply `ply` together with their
    /// ordering scores.
    pub fn swap_entries(&mut self, ply: usize, a: usize, b: usize)
        requires
            old(self).wf(),
            ply < MAX_PLY,
            a < 28,
            b < 28,
        ensures
            final(self).wf(),
            final(self).tile@ == old(self).tile@.update(
                ply * 28 + a,
                old(self).tile@[ply * 28 + b],
            ).update(ply * 28 + b, old(self).tile@[ply * 28 + a]),
            final(self).end@ == old(self).end@.update(
                ply * 28 + a,
                old(self).end@[ply * 28 + b],
            ).update(ply * 28 + b, old(self).end@[ply * 28 + a]),
            final(self).score@ == old(self).score@.update(
                ply * 28 + a,
                old(self).score@[ply * 28 + b],
            ).update(ply * 28 + b, old(self).score@[ply * 28 + a]),
    {
        let base: usize = ply * 28;
        let tmp_s: i32 = self.score[base + a];
        let other_s: i32 = self.score[base + b];
        self.score[base + a] = other_s;
        self.score[base + b] = tmp_s;
        self.swap_moves(ply, a, b);
    }

    /// The tile of move `i` of ply `ply`.
    pub fn tile_at(&self, ply: usize, i: usize) -> (t: i8)
        requires
            self.wf(),
            ply < MAX_PLY,
            i < 28,
        ensures
            t == self.tile@[ply * 28 + i],
    {
        self.tile[ply * 28 + i]
    }

    /// The end of move `i` of ply `ply`.
    pub fn end_at(&self, ply: usize, i: usize) -> (e: i8)
        requires
            self.wf(),
            ply < MAX_PLY,
            i < 28,
        ensures
            e == self.end@[ply * 28 + i],
    {
        self.end[ply * 28 + i]
    }
}

/// Exchanging two moves of a list keeps the moves that it holds.
pub proof fn lemma_swap_keeps_moves<A>(s: Seq<A>, a: int, b: int)
    requires
        0 <= a < s.len(),
        0 <= b < s.len(),
    ensures
        s.update(a, s[b]).update(b, s[a]).to_multiset() == s.to_multiset(),
{
    broadcast use vstd::seq_lib::group_to_multiset_ensures;

    let s1 = s.update(a, s[b]);
    let s2 = s1.update(b, s[a]);
    assert(s1.to_multiset() == s.to_multiset().insert(s[b]).remove(s[a]));
    assert(s2.to_multiset() == s1.to_multiset().insert(s[a]).remove(s1[b]));
    assert(s.to_multiset().count(s[a]) > 0);
    assert(s.to_multiset().count(s[b]) > 0);
    assert(s2.to_multiset() =~= s.to_multiset());
}

/// Two lists that hold the same moves hold each other's moves.
pub proof fn lemma_same_moves<A>(s: Seq<A>, r: Seq<A>)
    requires
        s.to_multiset() == r.to_multiset(),
    ensures
        s.len() == r.len(),
        forall|i: int| 0 <= i < s.len() ==> r.contains(#[trigger] s[i]),
        forall|i: int| 0 <= i < r.len() ==> s.contains(#[trigger] r[i]),
{
    broadcast use vstd::seq_lib::group_to_multiset_ensures;

    assert(s.len() == s.to_multiset().len());
    assert(r.len() == r.to_multiset().len());
    assert forall|i: int| 0 <= i < s.len() implies r.contains(#[trigger] s[i]) by {
        assert(s.contains(s[i]));
        assert(s.to_multiset().count(s[i]) > 0);
    }
    assert forall|i: int| 0 <= i < r.len() implies s.contains(#[trigger] r[i]) by {
        assert(r.contains(r[i]));
        assert(r.to_multiset().count(r[i]) > 0);
    }
}

/// A legal move leaves a board with two open ends.
pub proof fn lemma_ends_after(hand: i32, left: int, right: int, t: int, e: int)
    requires
        valid_hand(hand),
        board_ok(left, right),
        is_legal_move(hand, left, right, t, e),
    ensures
        is_tile(t),
        e == 0 || e == 1,
        0 <= ends_after(t, e, left, right).0 <= 6,
        0 <= ends_after(t, e, left, right).1 <= 6,
{
    lemma_hand_tiles(hand);
    lemma_tile_tables(t);
    if left != 7 {
        lemma_new_end_tables(t, left);
        lemma_new_end_tables(t, right);
    }
}

/// The ends of the board after tile `t_idx` is placed on end `end` (0 left,
/// 1 right); an end becomes -1 where the tile does not match it.
pub fn compute_new_ends(t_idx: usize, end: i8, left: i8, right: i8) -> (ends: (i8, i8))
    requires
        t_idx < 28,
        0 <= left <= 7,
        0 <= right <= 7,
    ensures
        ends.0 == ends_after(t_idx as int, end as int, left as int, right as int).0,
        ends.1 == ends_after(t_idx as int, end as int, left as int, right as int).1,
{
    proof {
        lemma_tile_tables(t_idx as int);
        lemma_new_end_tables(t_idx as int, left as int);
        lemma_new_end_tables(t_idx as int, right as int);
    }
    if left == 7 {
        (TILE_LOW[t_idx], TILE_HIGH[t_idx])
    } else if end == 0 {
        (NEW_END_LEFT[t_idx * 8 + left as usize], right)
    } else {
        (left, NEW_END_RIGHT[t_idx * 8 + right as usize])
    }
}

/// A hand of one suit holds at most seven tiles.
pub proof fn lemma_suit_hand_small(hand: i32, v: int)
    requires
        valid_hand(hand),
        0 <= v <= 6,
        forall|t: int| has_tile(hand, t) ==> has_suit(t, v),
    ensures
        hand_tiles(hand).len() <= 7,
{
    let s = hand_tiles(hand);
    lemma_hand_tiles(hand);
    // Along the hand the value on the other half of each tile grows.
    let other = |t: int| tile_low(t) + tile_high(t) - v;
    assert forall|i: int| 0 <= i < s.len() implies i <= #[trigger] other(s[i]) <= 6 by {
        lemma_other_half_grows(s, v, i);
    }
    if s.len() > 7 {
        assert(7 <= other(s[7]));
    }
}

proof fn lemma_other_half_grows(s: Seq<int>, v: int, i: int)
    requires
        0 <= v <= 6,
        0 <= i < s.len(),
        forall|k: int| 0 <= k < s.len() ==> has_suit(#[trigger] s[k], v),
        forall|k: int, l: int| 0 <= k < l < s.len() ==> s[k] < s[l],
    ensures
        i <= tile_low(s[i]) + tile_high(s[i]) - v <= 6,
    decreases i,
{
    assert(has_suit(s[i], v));
    if i > 0 {
        lemma_other_half_grows(s, v, i - 1);
        assert(has_suit(s[i - 1], v));
        assert(s[i - 1] < s[i]);
    }
}

/// Of the tiles of a sequence, those that pass one test and those that pass
/// another are together as many as those that pass either and those that
/// pass both.
pub proof fn lemma_filter_counts(
    s: Seq<int>,
    p: spec_fn(int) -> bool,
    q: spec_fn(int) -> bool,
    either: spec_fn(int) -> bool,
    both: spec_fn(int) -> bool,
)
    requires
        forall|t: int| #[trigger] either(t) == (p(t) || q(t)),
        forall|t: int| #[trigger] both(t) == (p(t) && q(t)),
    ensures
        s.filter(p).len() + s.filter(q).len() == s.filter(either).len() + s.filter(both).len(),
    decreases s.len(),
{
    if s.len() == 0 {
        reveal(Seq::filter);
    } else {
        let init = s.drop_last();
        let x = s.last();
        lemma_filter_counts(init, p, q, either, both);
        assert(s =~= init.push(x));
        init.lemma_filter_len_push(p, x);
        init.lemma_filter_len_push(q, x);
        init.lemma_filter_len_push(either, x);
        init.lemma_filter_len_push(both, x);
    }
}

/// The number of generated moves. Where both ends show the same value it is
/// the number of tiles of that suit in the hand; where they differ it is the
/// number of tiles matching either end plus the number matching both.
pub proof fn lemma_move_count(hand: i32, left: int, right: int)
    requires
        valid_hand(hand),
        0 <= left <= 6,
        0 <= right <= 6,
    ensures
        left == right ==> move_list(hand, left, right).len() == hand_tiles(
            SUIT_MASK[left] & hand,
        ).len(),
        left != right ==> move_list(hand, left, right).len() == hand_tiles(
            (SUIT_MASK[left] | SUIT_MASK[right]) & hand,
        ).len() + hand_tiles(SUIT_MASK[left] & SUIT_MASK[right] & hand).len(),
        move_list(hand, left, right).len() == playable_tiles(hand, left, right).len() + if left
            != right {
            hand_tiles(hand).filter(both_suits_pred(left, right)).len()
        } else {
            0
        },
{
    lemma_suit_tiles(hand, left, right);
    lemma_suit_tiles(hand, right, left);
    if left == right {
        assert(suit_pred(left) =~= either_suit_pred(left, right));
    } else {
        lemma_filter_counts(
            hand_tiles(hand),
            suit_pred(left),
            suit_pred(right),
            either_suit_pred(left, right),
            both_suits_pred(left, right),
        );
    }
}

/// The generated list holds the legal moves, and nothing else.
pub proof fn lemma_move_list_legal(hand: i32, left: int, right: int, t: int, e: int)
    requires
        valid_hand(hand),
        board_ok(left, right),
    ensures
        move_list(hand, left, right).contains((t, e)) <==> is_legal_move(hand, left, right, t, e),
{
    broadcast use {
        Seq::lemma_filter_pred,
        Seq::lemma_filter_contains,
        Seq::lemma_filter_contains_rev,
    };

    lemma_hand_tiles(hand);
    let all = hand_tiles(hand);
    let lt = left_tiles(hand, left);
    let rt = right_tiles(hand, left, right);
    let ml = move_list(hand, left, right);
    if ml.contains((t, e)) {
        let i = choose|i: int| 0 <= i < ml.len() && ml[i] == (t, e);
        if i < lt.len() {
            assert(ml[i] == (lt[i], 0int));
            assert(lt.contains(lt[i]));
            if left != 7 {
                assert(suit_pred(left)(lt[i]));
                assert(all.contains(lt[i]));
            }
        } else {
            let k = i - lt.len();
            assert(ml[i] == (rt[k], 1int));
            assert(rt.contains(rt[k]));
            assert(suit_pred(right)(rt[k]));
            assert(all.contains(rt[k]));
        }
        assert(all.contains(t));
        let j = choose|j: int| 0 <= j < all.len() && all[j] == t;
        assert(has_tile(hand, all[j]));
    }
    if is_legal_move(hand, left, right, t, e) {
        assert(all.contains(t));
        let j = choose|j: int| 0 <= j < all.len() && all[j] == t;
        if e == 0 {
            if left != 7 {
                assert(suit_pred(left)(all[j]));
                assert(lt.contains(all[j]));
            }
            let i = choose|i: int| 0 <= i < lt.len() && lt[i] == t;
            assert(ml[i] == (t, e));
        } else {
            assert(suit_pred(right)(all[j]));
            assert(rt.contains(all[j]));
            let k = choose|k: int| 0 <= k < rt.len() && rt[k] == t;
            assert(ml[lt.len() + k] == (t, e));
        }
    }
}

/// A hand has no move exactly when none of its tiles can be placed.
pub proof fn lemma_no_moves(hand: i32, left: int, right: int)
    requires
        valid_hand(hand),
        board_ok(left, right),
    ensures
        move_list(hand, left, right).len() == 0 <==> playable_tiles(hand, left, right).len() == 0,
        move_list(hand, left, right).len() == 0 <==> forall|t: int, e: int|
            !is_legal_move(hand, left, right, t, e),
{
    broadcast use {
        Seq::lemma_filter_pred,
        Seq::lemma_filter_contains,
        Seq::lemma_filter_contains_rev,
    };

    let ml = move_list(hand, left, right);
    if left != 7 {
        lemma_move_count(hand, left, right);
        let all = hand_tiles(hand);
        let both = all.filter(both_suits_pred(left, right));
        if left != right && both.len() > 0 {
            assert(both_suits_pred(left, right)(both[0]));
            assert(both.contains(both[0]));
            assert(all.contains(both[0]));
            let j = choose|j: int| 0 <= j < all.len() && all[j] == both[0];
            assert(either_suit_pred(left, right)(all[j]));
            assert(all.filter(either_suit_pred(left, right)).contains(all[j]));
        }
    }
    if ml.len() == 0 {
        assert forall|t: int, e: int| !is_legal_move(hand, left, right, t, e) by {
            lemma_move_list_legal(hand, left, right, t, e);
        }
    } else {
        lemma_move_list_legal(hand, left, right, ml[0].0, ml[0].1);
        assert(ml.contains(ml[0]));
        assert(is_legal_move(hand, left, right, ml[0].0, ml[0].1));
    }
}

/// Writes the tiles of `mask`, ascending, with the end `end`, from index
/// `start` of the buffer on; returns their number.
fn emit_tiles(buf: &mut MoveBuffer, mask: i32, end: i8, start: usize) -> (n: usize)
    requires
        old(buf).wf(),
        valid_hand(mask),
        start + hand_tiles(mask).len() <= MOVE_BUF_SIZE,
    ensures
        final(buf).wf(),
        n == hand_tiles(mask).len(),
        forall|i: int|
            0 <= i < n ==> final(buf).tile@[start + i] == #[trigger] hand_tiles(mask)[i]
                && final(buf).end@[start + i] == end,
        forall|j: int|
            0 <= j < MOVE_BUF_SIZE && !(start <= j < start + n) ==> #[trigger] final(buf).tile@[j]
                == old(buf).tile@[j],
        forall|j: int|
            0 <= j < MOVE_BUF_SIZE && !(start <= j < start + n) ==> #[trigger] final(buf).end@[j]
                == old(buf).end@[j],
        final(buf).score@ == old(buf).score@,
{
    let ghost tiles = hand_tiles(mask);
    let mut m: u32 = mask as u32;
    let mut n: usize = 0;
    proof {
        lemma_hand_tiles(mask);
        assert(tiles.skip(0) =~= tiles);
    }
    while m != 0
        invariant
            buf.wf(),
            tiles == hand_tiles(mask),
            tiles.len() <= 28,
            forall|i: int| 0 <= i < tiles.len() ==> is_tile(#[trigger] tiles[i]),
            start + tiles.len() <= MOVE_BUF_SIZE,
            0 <= n <= tiles.len(),
            mask_bits(m) == tiles.skip(n as int),
            forall|i: int|
                0 <= i < n ==> buf.tile@[start + i] == #[trigger] tiles[i] && buf.end@[start + i]
                    == end,
            forall|j: int|
                0 <= j < MOVE_BUF_SIZE && !(start <= j < start + n) ==> #[trigger] buf.tile@[j]
                    == old(buf).tile@[j],
            forall|j: int|
                0 <= j < MOVE_BUF_SIZE && !(start <= j < start + n) ==> #[trigger] buf.end@[j]
                    == old(buf).end@[j],
            buf.score@ == old(buf).score@,
        decreases m,
    {
        let (idx, rest) = take_lowest(m);
        proof {
            assert(tiles.skip(n as int)[0] == tiles[n as int]);
            assert(tiles.skip(n as int).skip(1) =~= tiles.skip(n as int + 1));
        }
        buf.tile[start + n] = idx as i8;
        buf.end[start + n] = end;
        n += 1;
        m = rest;
    }
    proof {
        lemma_no_bits(32);
        assert(tiles.skip(n as int).len() == 0);
    }
    n
}

/// Generates the moves of `hand` against the ends `left` and `right` into the
/// buffer of ply `ply`, and returns their number.
///
/// On the empty board (`left == 7`) every tile is one move, on the left end.
/// Otherwise the tiles matching `left` come first, ascending, with end 0, then
/// the tiles matching `right`, ascending, with end 1; a tile matching two
/// different ends is two moves, and where both ends show the same value each
/// matching tile is one move, on the left.
pub fn generate_moves(buf: &mut MoveBuffer, hand: i32, left: i8, right: i8, ply: usize) -> (count:
    usize)
    requires
        old(buf).wf(),
        valid_hand(hand),
        board_ok(left as int, right as int),
        ply < MAX_PLY,
    ensures
        final(buf).wf(),
        count <= 28,
        left != 7 ==> count <= 14,
        count == move_list(hand, left as int, right as int).len(),
        final(buf).moves(ply as int, count as int) == move_list(hand, left as int, right as int),
        final(buf).same_from(old(buf), ply as int, count as int),
        final(buf).same_but_ply(old(buf), ply as int),
        final(buf).score@ == old(buf).score@,
{
    let base: usize = ply * 28;
    if left == 7 {
        proof {
            lemma_hand_tiles(hand);
        }
        let n: usize = emit_tiles(buf, hand, 0, base);
        assert(buf.moves(ply as int, n as int) =~= move_list(hand, left as int, right as int));
        return n;
    }
    let left_mask: i32 = SUIT_MASK[left as usize] & hand;
    let right_mask: i32 = SUIT_MASK[right as usize] & hand;
    proof {
        lemma_suit_tiles(hand, left as int, right as int);
        lemma_suit_tiles(hand, right as int, left as int);
        lemma_hand_ops(SUIT_MASK[left as int], hand);
        lemma_hand_ops(SUIT_MASK[right as int], hand);
        lemma_hand_ops(right_mask, left_mask);
        assert forall|t: int| has_tile(left_mask, t) implies has_suit(t, left as int) by {
            if 0 <= t < 32 {
                lemma_masks(t);
            }
        }
        assert forall|t: int| has_tile(right_mask, t) implies has_suit(t, right as int) by {
            if 0 <= t < 32 {
                lemma_masks(t);
            }
        }
        lemma_suit_hand_small(left_mask, left as int);
        lemma_suit_hand_small(right_mask, right as int);
    }
    let n_left: usize = emit_tiles(buf, left_mask, 0, base);
    let second: i32 = if left != right {
        right_mask
    } else {
        right_mask & !left_mask
    };
    proof {
        if left == right {
            assert(right_mask == left_mask);
            assert(left_mask & !left_mask == 0) by (bit_vector);
            lemma_hand_tiles(0);
        }
    }
    let n_right: usize = emit_tiles(buf, second, 1, base + n_left);
    assert(buf.moves(ply as int, (n_left + n_right) as int) =~= move_list(
        hand,
        left as int,
        right as int,
    ));
    n_left + n_right
}

/// The number of tiles of `hand` that can be placed against the ends `left`
/// and `right`; on the empty board (`left == 7`), all of them.
pub fn count_moves_bb(hand: i32, left: i8, right: i8) -> (n: i32)
    requires
        valid_hand(hand),
        board_ok(left as int, right as int),
    ensures
        n == playable_tiles(hand, left as int, right as int).len(),
        0 <= n <= 28,
{
    proof {
        lemma_hand_tiles(hand);
    }
    if left == 7 {
        return popcount(hand);
    }
    let left_mask: i32 = SUIT_MASK[left as usize] & hand;
    let right_mask: i32 = SUIT_MASK[right as usize] & hand;
    proof {
        lemma_suit_tiles(hand, left as int, right as int);
        lemma_suit_tiles(hand, right as int, left as int);
        lemma_hand_tiles((SUIT_MASK[left as int] | SUIT_MASK[right as int]) & hand);
        lemma_hand_tiles(left_mask);
        let sl = SUIT_MASK[left as int];
        let sr = SUIT_MASK[right as int];
        assert(left_mask | right_mask == (sl | sr) & hand) by (bit_vector)
            requires
                left_mask == sl & hand,
                right_mask == sr & hand,
        ;
    }
    if left == right {
        proof {
            assert(suit_pred(left as int) =~= either_suit_pred(left as int, right as int));
        }
        popcount(left_mask)
    } else {
        popcount(left_mask | right_mask)
    }
}

} // verus!
