//! Terminal scores: pip counts with the ghost-13 rule, the score of a domino,
//! and the score of a blocked game with its aggressor.
use vstd::prelude::*;
use crate::bitset::{mask_bits, take_lowest, lemma_no_bits};
use crate::lookup::{
    NEW_END_LEFT, NEW_END_RIGHT, SUIT_MASK, TILE_00_BIT, TILE_HIGH, TILE_LOW, TILE_PIPS,
    ZERO_SUIT_NO_00, hand_tiles, has_suit, has_tile, is_tile, lemma_hand_ops, lemma_hand_tiles,
    lemma_masks, lemma_new_end_tables, lemma_suit_tiles, lemma_tile_bit, lemma_tile_tables,
    new_end_left, new_end_right, popcount, tile_pips, valid_hand,
};
use crate::movegen::{board_ok, count_moves_bb, playable_tiles};

verus! {

/// The pips of the given tiles, added up.
pub open spec fn pips_of(tiles: Seq<int>) -> int
    decreases tiles.len(),
{
    if tiles.len() == 0 {
        0
    } else {
        pips_of(tiles.drop_last()) + tile_pips(tiles.last())
    }
}

/// The ghost-13 rule applies to `hand`: it holds (0,0), and none of (0,1) ..
/// (0,6) is left in `both_hands`.
pub open spec fn ghost13(hand: i32, both_hands: i32) -> bool {
    has_tile(hand, 0) && forall|t: int| 1 <= t <= 6 ==> !has_tile(both_hands, t)
}

/// The pip count of `hand`: the pips of its tiles, and 13 more for (0,0)
/// where the ghost-13 rule applies.
pub open spec fn total_pips(hand: i32, both_hands: i32) -> int {
    pips_of(hand_tiles(hand)) + if ghost13(hand, both_hands) {
        13int
    } else {
        0int
    }
}

/// The score of a domino: the pips left to the loser, positive when the
/// engine's side won.
pub open spec fn domino_score(winner_is_ai: bool, loser_hand: i32) -> int {
    if winner_is_ai {
        total_pips(loser_hand, loser_hand)
    } else {
        -total_pips(loser_hand, loser_hand)
    }
}

/// Some side can place a tile against the ends `left` and `right`.
pub open spec fn any_reply(hand_a: i32, hand_b: i32, left: int, right: int) -> bool {
    playable_tiles(hand_a, left, right).len() > 0 || playable_tiles(hand_b, left, right).len() > 0
}

/// The hand `hand` with tile `t` added.
pub open spec fn with_tile(hand: i32, t: int) -> i32 {
    hand | (1i32 << (t as u32))
}

/// The placements that the block rule reads are well formed: the tile of the
/// last placement is a tile or absent, and the board after the placement
/// before it is a board.
pub open spec fn placements_ok(p1_tile: int, p2_who: int, p2_l: int, p2_r: int) -> bool {
    &&& p1_tile == -1 || is_tile(p1_tile)
    &&& p2_who == -1 || p1_tile == -1 || board_ok(p2_l, p2_r)
}

/// The side blamed for a block.
///
/// It is the last placer, `p1_who`, unless the placer before, `p2_who`, is
/// the puppeteer. With the hand `before` (the last placer's hand with the
/// last tile put back) against the board `(p2_l, p2_r)`: the placer before is
/// the puppeteer when exactly one tile of `before` could be placed there and
/// no way of placing it would have left either side a move.
pub open spec fn aggressor(
    p1_who: i8,
    p1_tile: i8,
    p2_who: i8,
    p2_l: i8,
    p2_r: i8,
    last_placer_hand: i32,
    other_hand: i32,
) -> i8 {
    if p2_who == -1 || p1_tile == -1 {
        p1_who
    } else {
        let before = with_tile(last_placer_hand, p1_tile as int);
        let legal = playable_tiles(before, p2_l as int, p2_r as int);
        if legal.len() != 1 {
            p1_who
        } else {
            let t = legal[0];
            let can_l = p2_l == 7 || has_suit(t, p2_l as int);
            let can_r = p2_l != 7 && !(p2_l == p2_r && can_l) && has_suit(t, p2_r as int);
            let after_l = any_reply(
                other_hand,
                last_placer_hand,
                new_end_left(t, p2_l as int),
                if p2_l == 7 {
                    new_end_right(t, 7)
                } else {
                    p2_r as int
                },
            );
            let after_r = any_reply(
                other_hand,
                last_placer_hand,
                p2_l as int,
                new_end_right(t, p2_r as int),
            );
            if (can_l && after_l) || (can_r && after_r) {
                p1_who
            } else {
                p2_who
            }
        }
    }
}

/// The score of a blocked game.
///
/// With the aggressor's pips `a` and the other side's pips `o`, both counted
/// with the ghost-13 rule over the two hands together: where `a <= o` the
/// aggressor gains `2 * o`; otherwise the aggressor loses the pips of both
/// hands. A gain of the engine's side is positive.
pub open spec fn block_score(
    ai_hand: i32,
    human_hand: i32,
    p1_who: i8,
    p1_tile: i8,
    p2_who: i8,
    p2_l: i8,
    p2_r: i8,
) -> int {
    let last_placer_hand = if p1_who == 1 { ai_hand } else { human_hand };
    let other_hand = if p1_who == 1 { human_hand } else { ai_hand };
    let who = aggressor(p1_who, p1_tile, p2_who, p2_l, p2_r, last_placer_hand, other_hand);
    let ai_pips = total_pips(ai_hand, ai_hand | human_hand);
    let human_pips = total_pips(human_hand, ai_hand | human_hand);
    let aggr_pips = if who == 1 { ai_pips } else { human_pips };
    let opp_pips = if who == 1 { human_pips } else { ai_pips };
    if aggr_pips <= opp_pips {
        if who == 1 {
            2 * opp_pips
        } else {
            -2 * opp_pips
        }
    } else {
        if who == 1 {
            -(ai_pips + human_pips)
        } else {
            ai_pips + human_pips
        }
    }
}

/// The pips of a hand lie between 0 and 12 for each tile.
pub proof fn lemma_pips_bound(tiles: Seq<int>)
    requires
        forall|i: int| 0 <= i < tiles.len() ==> is_tile(#[trigger] tiles[i]),
    ensures
        0 <= pips_of(tiles) <= 12 * tiles.len(),
    decreases tiles.len(),
{
    if tiles.len() > 0 {
        lemma_pips_bound(tiles.drop_last());
        lemma_tile_tables(tiles.last());
    }
}

/// A pip count lies between 0 and 349.
pub proof fn lemma_total_pips_bound(hand: i32, both_hands: i32)
    requires
        valid_hand(hand),
    ensures
        0 <= total_pips(hand, both_hands) <= 349,
        hand == 0 ==> total_pips(hand, both_hands) == 0,
{
    lemma_hand_tiles(hand);
    lemma_pips_bound(hand_tiles(hand));
    if hand == 0 {
        lemma_masks(0);
        assert(!has_tile(0i32, 0)) by {
            assert((0u32 >> 0u32) & 1 == 0) by (bit_vector);
        }
    }
}

/// A domino and a block both score within 698 points.
pub proof fn lemma_score_bounds(
    ai_hand: i32,
    human_hand: i32,
    p1_who: i8,
    p1_tile: i8,
    p2_who: i8,
    p2_l: i8,
    p2_r: i8,
)
    requires
        valid_hand(ai_hand),
        valid_hand(human_hand),
    ensures
        -698 <= block_score(ai_hand, human_hand, p1_who, p1_tile, p2_who, p2_l, p2_r) <= 698,
        -349 <= domino_score(true, human_hand) <= 349,
        -349 <= domino_score(false, ai_hand) <= 349,
{
    lemma_total_pips_bound(ai_hand, ai_hand | human_hand);
    lemma_total_pips_bound(human_hand, ai_hand | human_hand);
    lemma_total_pips_bound(ai_hand, ai_hand);
    lemma_total_pips_bound(human_hand, human_hand);
}

/// Whether the ghost-13 rule applies to `hand`.
pub fn ghost13_applies(hand: i32, both_hands: i32) -> (g: bool)
    requires
        valid_hand(hand),
        valid_hand(both_hands),
    ensures
        g == ghost13(hand, both_hands),
{
    proof {
        lemma_hand_ops(hand, TILE_00_BIT);
        lemma_hand_ops(both_hands, ZERO_SUIT_NO_00);
        lemma_hand_tiles(hand & TILE_00_BIT);
        lemma_hand_tiles(both_hands & ZERO_SUIT_NO_00);
        lemma_masks(0);
        assert forall|t: int| 1 <= t <= 6 implies has_tile(ZERO_SUIT_NO_00, t) by {
            lemma_masks(t);
        }
        if (hand & TILE_00_BIT) != 0 {
            let s = hand_tiles(hand & TILE_00_BIT);
            assert(has_tile(hand & TILE_00_BIT, s[0]));
            assert(has_tile(TILE_00_BIT, s[0]));
            lemma_masks(s[0]);
        } else {
            assert(!has_tile(hand & TILE_00_BIT, 0)) by {
                if has_tile(hand & TILE_00_BIT, 0) {
                    assert(hand_tiles(hand & TILE_00_BIT).contains(0));
                }
            }
        }
        if (both_hands & ZERO_SUIT_NO_00) != 0 {
            let s = hand_tiles(both_hands & ZERO_SUIT_NO_00);
            assert(has_tile(both_hands & ZERO_SUIT_NO_00, s[0]));
            assert(has_tile(ZERO_SUIT_NO_00, s[0]));
            lemma_masks(s[0]);
            assert(has_tile(both_hands, s[0]));
        } else {
            assert forall|t: int| 1 <= t <= 6 implies !has_tile(both_hands, t) by {
                if has_tile(both_hands, t) {
                    assert(has_tile(both_hands & ZERO_SUIT_NO_00, t));
                    assert(hand_tiles(both_hands & ZERO_SUIT_NO_00).contains(t));
                }
            }
        }
    }
    (hand & TILE_00_BIT) != 0 && (both_hands & ZERO_SUIT_NO_00) == 0
}

/// The pip count of `hand`. The (0,0) tile counts 13 instead of 0 where the
/// hand holds it and none of (0,1) .. (0,6) is left in `both_hands`.
pub fn total_pips_bb(hand: i32, both_hands: i32) -> (sum: i32)
    requires
        valid_hand(hand),
        valid_hand(both_hands),
    ensures
        sum == total_pips(hand, both_hands),
        0 <= sum <= 349,
{
    let ghost tiles = hand_tiles(hand);
    let mut sum: i32 = if ghost13_applies(hand, both_hands) { 13 } else { 0 };
    let mut h: u32 = hand as u32;
    let ghost mut k: int = 0;
    proof {
        lemma_hand_tiles(hand);
        assert(tiles.skip(0) =~= tiles);
        assert(tiles.take(0) =~= Seq::<int>::empty());
    }
    while h != 0
        invariant
            tiles == hand_tiles(hand),
            tiles.len() <= 28,
            forall|i: int| 0 <= i < tiles.len() ==> is_tile(#[trigger] tiles[i]),
            0 <= k <= tiles.len(),
            mask_bits(h) == tiles.skip(k),
            sum == pips_of(tiles.take(k)) + if ghost13(hand, both_hands) {
                13int
            } else {
                0int
            },
            0 <= pips_of(tiles.take(k)) <= 12 * k,
        decreases h,
    {
        let (idx, rest) = take_lowest(h);
        proof {
            assert(tiles.skip(k)[0] == tiles[k]);
            assert(tiles.skip(k).skip(1) =~= tiles.skip(k + 1));
            assert(tiles.take(k + 1).drop_last() =~= tiles.take(k));
            lemma_tile_tables(idx as int);
        }
        sum += TILE_PIPS[idx] as i32;
        h = rest;
        proof {
            k = k + 1;
        }
    }
    proof {
        lemma_no_bits(32);
        assert(tiles.skip(k).len() == 0);
        assert(tiles.take(k) =~= tiles);
    }
    sum
}

/// The score when a side has emptied its hand: the loser's pip count,
/// positive when the engine's side won, negative when the opponent won.
pub fn score_domino_bb(winner_is_ai: bool, loser_hand: i32) -> (score: i32)
    requires
        valid_hand(loser_hand),
    ensures
        score == domino_score(winner_is_ai, loser_hand),
        -349 <= score <= 349,
{
    let pips: i32 = total_pips_bb(loser_hand, loser_hand);
    if winner_is_ai {
        pips
    } else {
        -pips
    }
}

/// The side blamed for a block: 1 for the engine's side, 0 for the opponent
/// (see `aggressor`). `_p1_l` and `_p1_r` are not read.
pub fn detect_aggressor_bb(
    p1_who: i8,
    _p1_l: i8,
    _p1_r: i8,
    p1_tile: i8,
    p2_who: i8,
    p2_l: i8,
    p2_r: i8,
    last_placer_hand: i32,
    other_hand: i32,
) -> (who: i8)
    requires
        valid_hand(last_placer_hand),
        valid_hand(other_hand),
        placements_ok(p1_tile as int, p2_who as int, p2_l as int, p2_r as int),
    ensures
        who == aggressor(p1_who, p1_tile, p2_who, p2_l, p2_r, last_placer_hand, other_hand),
        who == p1_who || who == p2_who,
{
    if p2_who == -1 || p1_tile == -1 {
        return p1_who;
    }
    proof {
        lemma_tile_bit(p1_tile as int);
        lemma_hand_ops(last_placer_hand, 1i32 << (p1_tile as u32));
    }
    let forced_hand: i32 = last_placer_hand | (1i32 << p1_tile);
    let legal_mask: i32 = if p2_l == 7 {
        forced_hand
    } else if p2_l == p2_r {
        SUIT_MASK[p2_l as usize] & forced_hand
    } else {
        (SUIT_MASK[p2_l as usize] | SUIT_MASK[p2_r as usize]) & forced_hand
    };
    proof {
        lemma_hand_tiles(forced_hand);
        if p2_l != 7 {
            lemma_suit_tiles(forced_hand, p2_l as int, p2_r as int);
            if p2_l == p2_r {
                assert(crate::lookup::suit_pred(p2_l as int) =~= crate::lookup::either_suit_pred(
                    p2_l as int,
                    p2_r as int,
                ));
            }
        }
        assert(hand_tiles(legal_mask) == playable_tiles(forced_hand, p2_l as int, p2_r as int));
        lemma_hand_tiles(legal_mask);
    }
    let legal_count: i32 = popcount(legal_mask);
    if legal_count != 1 {
        return p1_who;
    }
    let (the_tile_idx, _rest) = take_lowest(legal_mask as u32);
    let lo: i8 = TILE_LOW[the_tile_idx];
    let hi: i8 = TILE_HIGH[the_tile_idx];
    proof {
        lemma_tile_tables(the_tile_idx as int);
        lemma_new_end_tables(the_tile_idx as int, 7);
        if p2_l != 7 {
            lemma_new_end_tables(the_tile_idx as int, p2_l as int);
            lemma_new_end_tables(the_tile_idx as int, p2_r as int);
        }
    }
    let can_l: bool = if p2_l == 7 {
        true
    } else {
        lo == p2_l || hi == p2_l
    };
    let can_r: bool = if p2_l == 7 {
        false
    } else if p2_l == p2_r && can_l {
        false
    } else {
        lo == p2_r || hi == p2_r
    };
    let forced_hand_after: i32 = last_placer_hand;
    if can_l {
        let new_l: i8 = NEW_END_LEFT[the_tile_idx * 8 + if p2_l == 7 {
            7
        } else {
            p2_l as usize
        }];
        let new_r: i8 = if p2_l == 7 {
            NEW_END_RIGHT[the_tile_idx * 8 + 7]
        } else {
            p2_r
        };
        if count_moves_bb(other_hand, new_l, new_r) > 0 || count_moves_bb(
            forced_hand_after,
            new_l,
            new_r,
        ) > 0 {
            return p1_who;
        }
    }
    if can_r {
        let new_r2: i8 = NEW_END_RIGHT[the_tile_idx * 8 + p2_r as usize];
        let new_l2: i8 = p2_l;
        if count_moves_bb(other_hand, new_l2, new_r2) > 0 || count_moves_bb(
            forced_hand_after,
            new_l2,
            new_r2,
        ) > 0 {
            return p1_who;
        }
    }
    p2_who
}

/// The score of a blocked game, from the engine's side (see `block_score`).
/// `p1_l` and `p1_r` are not read.
pub fn score_block_bb(
    ai_hand: i32,
    human_hand: i32,
    p1_who: i8,
    p1_l: i8,
    p1_r: i8,
    p1_tile: i8,
    p2_who: i8,
    p2_l: i8,
    p2_r: i8,
) -> (score: i32)
    requires
        valid_hand(ai_hand),
        valid_hand(human_hand),
        placements_ok(p1_tile as int, p2_who as int, p2_l as int, p2_r as int),
    ensures
        score == block_score(ai_hand, human_hand, p1_who, p1_tile, p2_who, p2_l, p2_r),
        -698 <= score <= 698,
{
    let (last_placer_hand, other_hand) = if p1_who == 1 {
        (ai_hand, human_hand)
    } else {
        (human_hand, ai_hand)
    };
    let aggressor: i8 = detect_aggressor_bb(
        p1_who,
        p1_l,
        p1_r,
        p1_tile,
        p2_who,
        p2_l,
        p2_r,
        last_placer_hand,
        other_hand,
    );
    proof {
        lemma_hand_ops(ai_hand, human_hand);
    }
    let both_hands: i32 = ai_hand | human_hand;
    let ai_pips: i32 = total_pips_bb(ai_hand, both_hands);
    let human_pips: i32 = total_pips_bb(human_hand, both_hands);
    let aggr_pips: i32 = if aggressor == 1 { ai_pips } else { human_pips };
    let opp_pips: i32 = if aggressor == 1 { human_pips } else { ai_pips };
    if aggr_pips <= opp_pips {
        let pts: i32 = opp_pips * 2;
        if aggressor == 1 {
            pts
        } else {
            -pts
        }
    } else {
        let pts: i32 = ai_pips + human_pips;
        if aggressor == 1 {
            -pts
        } else {
            pts
        }
    }
}

} // verus!
