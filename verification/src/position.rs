//! The position under search: the two hands, the two open ends, the running
//! hash, the pass counter and the records of the two last placements, with
//! the placement and the pass as steps from one position to the next.
use vstd::prelude::*;
use crate::eval::tiles_left;
use crate::lookup::{
    hand_tiles, has_tile, is_tile, lemma_hand_ops, lemma_hand_tiles, lemma_tile_bit, valid_hand,
};
use crate::movegen::{
    board_ok, compute_new_ends, count_moves_bb, ends_after, is_legal_move, lemma_ends_after,
    playable_tiles,
};
use crate::scoring::{
    block_score, domino_score, lemma_score_bounds, score_block_bb, score_domino_bb,
};
use crate::zobrist::{
    hash_after_move, hash_after_pass, hash_after_passing, hash_after_placement,
    lemma_hash_after_move, lemma_hash_after_pass, root_hash,
};

verus! {

/// The position that the search works on, with the two last placements.
#[derive(Clone, Copy)]
pub struct Position {
    pub ai_hand: i32,
    pub human_hand: i32,
    pub left: i8,
    pub right: i8,
    pub hash: i32,
    pub ply: usize,
    pub cons_pass: i32,
    pub match_diff: i32,
    pub p1_who: i8,
    pub p1_l: i8,
    pub p1_r: i8,
    pub p1_tile: i8,
    pub p2_who: i8,
    pub p2_l: i8,
    pub p2_r: i8,
}

/// The two ends are a board: both are pip values, or the left end is 7, the
/// empty board, and the right end is a pip value or 7.
pub open spec fn valid_board(left: int, right: int) -> bool {
    (left == 7 && 0 <= right <= 7) || (0 <= left <= 6 && 0 <= right <= 6)
}

/// The records of the two last placements can be read by the block rule,
/// now and after any further placement.
pub open spec fn valid_placements(
    p1_who: int,
    p1_l: int,
    p1_r: int,
    p1_tile: int,
    p2_who: int,
    p2_l: int,
    p2_r: int,
) -> bool {
    &&& p1_tile == -1 || is_tile(p1_tile)
    &&& p1_who == -1 || board_ok(p1_l, p1_r)
    &&& p2_who == -1 || p1_tile == -1 || board_ok(p2_l, p2_r)
}

impl Position {
    /// The hand of the side to move.
    pub open spec fn mover_hand(&self, is_ai: bool) -> i32 {
        if is_ai {
            self.ai_hand
        } else {
            self.human_hand
        }
    }

    /// The position is one that the search can stand on.
    pub open spec fn valid(&self) -> bool {
        &&& valid_hand(self.ai_hand)
        &&& valid_hand(self.human_hand)
        &&& valid_board(self.left as int, self.right as int)
        &&& 0 <= self.cons_pass <= 1
        &&& self.ply + tiles_left(self.ai_hand, self.human_hand) <= 56
        &&& valid_placements(
            self.p1_who as int,
            self.p1_l as int,
            self.p1_r as int,
            self.p1_tile as int,
            self.p2_who as int,
            self.p2_l as int,
            self.p2_r as int,
        )
    }

    /// The running hash is the hash of the position with `is_ai` to move.
    pub open spec fn hashed(&self, is_ai: bool) -> bool {
        self.hash == root_hash(
            self.ai_hand,
            self.human_hand,
            self.left as int,
            self.right as int,
            is_ai,
            self.cons_pass as int,
        )
    }

    /// What bounds the rest of the game: two for each tile left, and one
    /// more while no pass is pending.
    pub open spec fn measure(&self) -> int {
        2 * tiles_left(self.ai_hand, self.human_hand) + 1 - self.cons_pass
    }

    /// The position after the side to move has placed tile `t` on end `e`.
    pub open spec fn after_move(&self, is_ai: bool, t: int, e: int) -> Position {
        let ends = ends_after(t, e, self.left as int, self.right as int);
        Position {
            ai_hand: if is_ai { self.ai_hand ^ (1i32 << (t as u32)) } else { self.ai_hand },
            human_hand: if is_ai { self.human_hand } else { self.human_hand ^ (1i32 << (t as u32)) },
            left: ends.0 as i8,
            right: ends.1 as i8,
            hash: hash_after_move(
                self.hash,
                t,
                if is_ai { 0 } else { 1 },
                self.left as int,
                ends.0,
                self.right as int,
                ends.1,
                self.cons_pass as int,
            ),
            ply: (self.ply + 1) as usize,
            cons_pass: 0,
            match_diff: self.match_diff,
            p1_who: if is_ai { 1i8 } else { 0i8 },
            p1_l: ends.0 as i8,
            p1_r: ends.1 as i8,
            p1_tile: t as i8,
            p2_who: self.p1_who,
            p2_l: self.p1_l,
            p2_r: self.p1_r,
        }
    }

    /// The position after the side to move has passed.
    pub open spec fn after_pass(&self) -> Position {
        Position {
            hash: hash_after_pass(self.hash, self.cons_pass as int),
            cons_pass: (self.cons_pass + 1) as i32,
            ..*self
        }
    }

    /// Passes for the side to move: the hash follows, and one more pass is
    /// pending.
    pub fn make_pass(&mut self, is_ai: bool)
        requires
            old(self).valid(),
            old(self).cons_pass == 0,
        ensures
            *final(self) == old(self).after_pass(),
            final(self).valid(),
            old(self).hashed(is_ai) ==> final(self).hashed(!is_ai),
            final(self).measure() < old(self).measure(),
    {
        proof {
            lemma_hash_after_pass(
                self.ai_hand,
                self.human_hand,
                self.left as int,
                self.right as int,
                is_ai,
                self.cons_pass as int,
            );
        }
        self.hash = hash_after_passing(self.hash, self.cons_pass);
        self.cons_pass = self.cons_pass + 1;
    }

    /// The score of the position where the game has ended with the last
    /// placement, made by `mover_is_ai`: a domino where the mover's hand is
    /// empty, a block where neither side can place a tile.
    pub open spec fn terminal_score(&self, mover_is_ai: bool) -> Option<int> {
        if self.mover_hand(mover_is_ai) == 0 {
            Some(domino_score(mover_is_ai, self.mover_hand(!mover_is_ai)))
        } else if playable_tiles(self.human_hand, self.left as int, self.right as int).len() == 0
            && playable_tiles(self.ai_hand, self.left as int, self.right as int).len() == 0 {
            Some(
                block_score(
                    self.ai_hand,
                    self.human_hand,
                    self.p1_who,
                    self.p1_tile,
                    self.p2_who,
                    self.p2_l,
                    self.p2_r,
                ),
            )
        } else {
            None
        }
    }

    /// The most extensions of a line through the position: 6, and one more
    /// for each tile short of 12.
    pub open spec fn max_extensions(&self) -> int {
        let total = tiles_left(self.ai_hand, self.human_hand);
        6 + if total < 12 { 12 - total } else { 0 }
    }

    /// A node at depth 0 with `num_moves` moves for the side to move is
    /// searched one ply further: the line has extensions left, and the side
    /// to move has one move only, or a pass is pending, or eight tiles or
    /// fewer are left and the opponent could place one tile at most.
    pub open spec fn extends(&self, is_ai: bool, num_moves: int, ext: int) -> bool {
        ext < self.max_extensions() && (num_moves == 1 || self.cons_pass > 0 || (tiles_left(
            self.ai_hand,
            self.human_hand,
        ) <= 8 && playable_tiles(
            self.mover_hand(!is_ai),
            self.left as int,
            self.right as int,
        ).len() <= 1))
    }

    /// Places tile `t_idx` of the side to move on end `end`: the tile leaves
    /// the hand, the end shows the tile's other half, the hash follows, a
    /// pending pass is cleared, and the placement is recorded.
    pub fn make_move(&mut self, is_ai: bool, t_idx: usize, end: i8)
        requires
            old(self).valid(),
            is_legal_move(
                old(self).mover_hand(is_ai),
                old(self).left as int,
                old(self).right as int,
                t_idx as int,
                end as int,
            ),
        ensures
            *final(self) == old(self).after_move(is_ai, t_idx as int, end as int),
            final(self).valid(),
            0 <= final(self).left <= 6,
            0 <= final(self).right <= 6,
            old(self).hashed(is_ai) ==> final(self).hashed(!is_ai),
            final(self).measure() < old(self).measure(),
            tiles_left(final(self).ai_hand, final(self).human_hand) == tiles_left(
                old(self).ai_hand,
                old(self).human_hand,
            ) - 1,
            forall|t: int|
                has_tile(final(self).ai_hand, t) ==> #[trigger] has_tile(old(self).ai_hand, t),
            forall|t: int|
                has_tile(final(self).human_hand, t) ==> #[trigger] has_tile(old(self).human_hand, t),
            old(self).ai_hand & old(self).human_hand == 0 ==> final(self).ai_hand & final(
                self
            ).human_hand == 0,
    {
        proof {
            lemma_ends_after(
                self.mover_hand(is_ai),
                self.left as int,
                self.right as int,
                t_idx as int,
                end as int,
            );
            let a = self.ai_hand;
            let h = self.human_hand;
            let tu = t_idx as u32;
            let bit = 1i32 << tu;
            assert(a & h == 0 ==> ((((a as u32) >> tu) & 1 == 1 ==> (a ^ bit) & h == 0) && ((((h
                as u32) >> tu) & 1 == 1) ==> a & (h ^ bit) == 0))) by (bit_vector)
                requires
                    tu < 28,
                    bit == 1i32 << tu,
                    0 <= a <= 0xfff_ffff,
                    0 <= h <= 0xfff_ffff,
            ;
            lemma_tile_bit(t_idx as int);
            lemma_hand_ops(self.mover_hand(is_ai), 1i32 << (t_idx as u32));
            lemma_toggle_count(self.mover_hand(is_ai), t_idx as int);
            lemma_hash_after_move(
                self.ai_hand,
                self.human_hand,
                self.left as int,
                self.right as int,
                is_ai,
                self.cons_pass as int,
                t_idx as int,
                ends_after(t_idx as int, end as int, self.left as int, self.right as int).0,
                ends_after(t_idx as int, end as int, self.left as int, self.right as int).1,
            );
        }
        let bit: i32 = 1i32 << t_idx;
        let (new_l, new_r) = compute_new_ends(t_idx, end, self.left, self.right);
        self.hash = hash_after_placement(
            self.hash,
            t_idx,
            if is_ai { 0 } else { 1 },
            self.left,
            new_l,
            self.right,
            new_r,
            self.cons_pass,
        );
        if is_ai {
            self.ai_hand = self.ai_hand ^ bit;
        } else {
            self.human_hand = self.human_hand ^ bit;
        }
        self.left = new_l;
        self.right = new_r;
        self.cons_pass = 0;
        self.p2_who = self.p1_who;
        self.p2_l = self.p1_l;
        self.p2_r = self.p1_r;
        self.p1_who = if is_ai { 1 } else { 0 };
        self.p1_l = new_l;
        self.p1_r = new_r;
        self.p1_tile = t_idx as i8;
        self.ply = self.ply + 1;
    }

    /// The score of the position where the last placement, made by
    /// `mover_is_ai`, has ended the game.
    pub fn terminal_after_move(&self, mover_is_ai: bool) -> (score: Option<i32>)
        requires
            self.valid(),
            self.left != 7,
        ensures
            score matches Some(s) ==> self.terminal_score(mover_is_ai) == Some(s as int) && -698 <= s
                <= 698,
            score is None ==> self.terminal_score(mover_is_ai) is None,
    {
        proof {
            lemma_score_bounds(
                self.ai_hand,
                self.human_hand,
                self.p1_who,
                self.p1_tile,
                self.p2_who,
                self.p2_l,
                self.p2_r,
            );
        }
        if is_ai_hand_empty(mover_is_ai, self.ai_hand, self.human_hand) {
            if mover_is_ai {
                Some(score_domino_bb(true, self.human_hand))
            } else {
                Some(score_domino_bb(false, self.ai_hand))
            }
        } else if count_moves_bb(self.human_hand, self.left, self.right) == 0 && count_moves_bb(
            self.ai_hand,
            self.left,
            self.right,
        ) == 0 {
            Some(
                score_block_bb(
                    self.ai_hand,
                    self.human_hand,
                    self.p1_who,
                    self.p1_l,
                    self.p1_r,
                    self.p1_tile,
                    self.p2_who,
                    self.p2_l,
                    self.p2_r,
                ),
            )
        } else {
            None
        }
    }
}

/// The hand of the side `mover_is_ai` is empty.
fn is_ai_hand_empty(mover_is_ai: bool, ai_hand: i32, human_hand: i32) -> (empty: bool)
    ensures
        empty == ((if mover_is_ai { ai_hand } else { human_hand }) == 0),
{
    if mover_is_ai {
        ai_hand == 0
    } else {
        human_hand == 0
    }
}

/// Taking a tile out of a hand leaves one tile less.
pub proof fn lemma_toggle_count(hand: i32, t: int)
    requires
        valid_hand(hand),
        has_tile(hand, t),
    ensures
        valid_hand(hand ^ (1i32 << (t as u32))),
        hand_tiles(hand ^ (1i32 << (t as u32))).len() == hand_tiles(hand).len() - 1,
        !has_tile(hand ^ (1i32 << (t as u32)), t),
{
    lemma_hand_tiles(hand);
    lemma_tile_bit(t);
    lemma_hand_ops(hand, 1i32 << (t as u32));
    let tu = t as u32;
    assert((hand ^ (1i32 << tu)) as u32 == (hand as u32) ^ (1u32 << tu)) by (bit_vector)
        requires
            tu < 28,
    ;
    crate::bitset::lemma_toggle_len(hand as u32, t, 32);
}

} // verus!
