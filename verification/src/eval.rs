//! The static evaluator: seven terms weighted by the phase of the game and by
//! the standing of the match, from the engine's side.
//!
//! The weights have one decimal place and are multiplied in pairs, so every
//! evaluation is a whole number of hundredths of a point. The evaluator
//! computes in hundredths, exactly.
use vstd::prelude::*;
use crate::bitset::{bit_set, lemma_mask_filter, lemma_no_bits, mask_bits, take_lowest};
use crate::lookup::{
    DOUBLE_MASK, SUIT_MASK, TILE_00_BIT, TILE_PIPS, ZERO_SUIT_NO_00, hand_tiles, has_tile,
    is_double, is_tile, lemma_hand_ops, lemma_hand_tiles, lemma_masks, lemma_suit_tiles,
    lemma_tile_tables, popcount, suit_pred, tile_pips, valid_hand,
};
use crate::movegen::{board_ok, count_moves_bb, playable_tiles};
use crate::scoring::{total_pips, total_pips_bb};

verus! {

/// Points for each pip that the opponent holds more than the engine.
pub const W_PIP: i32 = 2;

/// Points for each move that the engine has more than the opponent.
pub const W_MOBILITY: i32 = 4;

/// Points for each tile that the opponent holds more than the engine.
pub const W_TILE: i32 = 5;

/// Points for each tile of an open end's suit that the engine holds more.
pub const W_SUIT: i32 = 3;

/// Points for an open end of which the opponent holds no tile.
pub const W_LOCKIN: i32 = 8;

/// Points on top where the opponent holds no tile of either end.
pub const W_LOCKIN_BOTH: i32 = 15;

/// Points for the ghost tile in the opponent's hand.
pub const W_GHOST: i32 = 10;

/// Tenths of a point for each pip of a double, and for two pips more.
pub const W_DOUBLE_TENTHS: i32 = 15;

/// Hundredths in a point.
pub const SCALE: i32 = 100;

/// The test for doubles.
pub open spec fn double_pred() -> spec_fn(int) -> bool {
    |t: int| is_tile(t) && is_double(t)
}

/// The number of tiles of suit `v` in a hand.
pub open spec fn suit_count(hand: i32, v: int) -> int {
    hand_tiles(hand).filter(suit_pred(v)).len() as int
}

/// The weight of the given doubles, in tenths of a point: 1.5 for each pip
/// and for two pips more.
pub open spec fn double_load(tiles: Seq<int>) -> int
    decreases tiles.len(),
{
    if tiles.len() == 0 {
        0
    } else {
        double_load(tiles.drop_last()) + (tile_pips(tiles.last()) + 2) * 15
    }
}

/// Pip advantage, in points.
pub open spec fn pip_term(ai_hand: i32, human_hand: i32) -> int {
    (total_pips(human_hand, ai_hand | human_hand) - total_pips(ai_hand, ai_hand | human_hand)) * 2
}

/// Mobility, in points.
pub open spec fn mobility_term(ai_hand: i32, human_hand: i32, left: int, right: int) -> int {
    (playable_tiles(ai_hand, left, right).len() - playable_tiles(human_hand, left, right).len())
        * 4
}

/// Tile count, in points.
pub open spec fn tile_term(ai_hand: i32, human_hand: i32) -> int {
    (hand_tiles(human_hand).len() - hand_tiles(ai_hand).len()) * 5
}

/// Suit control, in points: the tiles of the open ends' suits that the
/// engine holds more than the opponent, an end shown twice counting double.
pub open spec fn suit_control_term(ai_hand: i32, human_hand: i32, left: int, right: int) -> int {
    if left == 7 {
        0
    } else if left == right {
        (suit_count(ai_hand, left) - suit_count(human_hand, left)) * 6
    } else {
        (suit_count(ai_hand, left) + suit_count(ai_hand, right) - suit_count(human_hand, left)
            - suit_count(human_hand, right)) * 3
    }
}

/// Lock-in, in points: 8 for each open end of which `hand` holds no tile,
/// and 15 more where it holds none of either.
pub open spec fn lock_in_term(hand: i32, left: int, right: int) -> int {
    if left == 7 {
        0
    } else if left == right {
        if suit_count(hand, left) == 0 {
            31
        } else {
            0
        }
    } else {
        (if suit_count(hand, left) == 0 { 8int } else { 0int }) + (if suit_count(hand, right) == 0 {
            8int
        } else {
            0int
        }) + (if suit_count(hand, left) == 0 && suit_count(hand, right) == 0 {
            15int
        } else {
            0int
        })
    }
}

/// The ghost tile, in points: where none of (0,1) .. (0,6) is left in either
/// hand, 10 for (0,0) in the opponent's hand and -10 for it in the engine's.
pub open spec fn ghost_term(ai_hand: i32, human_hand: i32) -> int {
    if forall|t: int| 1 <= t <= 6 ==> !has_tile(ai_hand | human_hand, t) {
        (if has_tile(human_hand, 0) { 10int } else { 0int }) - (if has_tile(ai_hand, 0) {
            10int
        } else {
            0int
        })
    } else {
        0
    }
}

/// Doubles, in tenths of a point: the weight of the opponent's doubles less
/// the weight of the engine's.
pub open spec fn double_term(ai_hand: i32, human_hand: i32) -> int {
    double_load(hand_tiles(human_hand).filter(double_pred())) - double_load(
        hand_tiles(ai_hand).filter(double_pred()),
    )
}

/// The phase weight of the pip term, in tenths, by the tiles left.
pub open spec fn phase_pip(total: int) -> int {
    if total >= 20 { 7 } else if total < 8 { 15 } else { 10 }
}

/// The phase weight of the mobility term, in tenths.
pub open spec fn phase_mob(total: int) -> int {
    if total >= 20 { 15 } else if total < 8 { 6 } else { 10 }
}

/// The phase weight of the suit terms, in tenths.
pub open spec fn phase_suit(total: int) -> int {
    if total >= 20 { 13 } else if total < 8 { 15 } else { 10 }
}

/// The phase weight of the double term, in tenths.
pub open spec fn phase_dbl(total: int) -> int {
    if total >= 20 { 13 } else { 10 }
}

/// The match factor of the pip term, in tenths, by the lead in the match.
pub open spec fn match_pip(match_diff: int) -> int {
    if match_diff >= 50 { 14 } else if match_diff <= -50 { 7 } else { 10 }
}

/// The match factor of the mobility term, in tenths.
pub open spec fn match_mob(match_diff: int) -> int {
    if match_diff <= -50 { 13 } else { 10 }
}

/// The match factor of the suit terms, in tenths.
pub open spec fn match_suit(match_diff: int) -> int {
    if match_diff >= 50 { 6 } else if match_diff <= -50 { 15 } else { 10 }
}

/// The number of tiles left in the two hands.
pub open spec fn tiles_left(ai_hand: i32, human_hand: i32) -> int {
    (hand_tiles(ai_hand).len() + hand_tiles(human_hand).len()) as int
}

/// The static evaluation of a position from the engine's side, in hundredths
/// of a point.
pub open spec fn evaluation(
    ai_hand: i32,
    human_hand: i32,
    left: int,
    right: int,
    match_diff: int,
) -> int {
    let total = tiles_left(ai_hand, human_hand);
    pip_term(ai_hand, human_hand) * (phase_pip(total) * match_pip(match_diff)) + mobility_term(
        ai_hand,
        human_hand,
        left,
        right,
    ) * (phase_mob(total) * match_mob(match_diff)) + tile_term(ai_hand, human_hand) * 100 + (
    suit_control_term(ai_hand, human_hand, left, right) + lock_in_term(human_hand, left, right)) * (
    phase_suit(total) * match_suit(match_diff)) + ghost_term(ai_hand, human_hand) * 100
        + double_term(ai_hand, human_hand) * phase_dbl(total)
}

/// An evaluation in whole points, the fraction cut off.
pub open spec fn whole_points(hundredths: int) -> int {
    if hundredths >= 0 {
        hundredths / 100
    } else {
        -((-hundredths) / 100)
    }
}

/// Swapping the two hands negates the pip, mobility, tile, suit-control,
/// ghost and double terms. The lock-in term is not among them: it reads the
/// opponent's hand alone.
pub proof fn lemma_terms_antisymmetric(h1: i32, h2: i32, left: int, right: int)
    ensures
        pip_term(h2, h1) == -pip_term(h1, h2),
        mobility_term(h2, h1, left, right) == -mobility_term(h1, h2, left, right),
        tile_term(h2, h1) == -tile_term(h1, h2),
        suit_control_term(h2, h1, left, right) == -suit_control_term(h1, h2, left, right),
        ghost_term(h2, h1) == -ghost_term(h1, h2),
        double_term(h2, h1) == -double_term(h1, h2),
        tiles_left(h2, h1) == tiles_left(h1, h2),
{
    assert(h1 | h2 == h2 | h1) by (bit_vector);
}

/// Swapping the two hands and negating the match lead negates the
/// evaluation, but for the lock-in term, which counts for whichever hand is
/// the opponent's. This holds while the match lead is below 50 on either
/// side; from 50 on, the side in the lead and the side behind are weighted
/// differently.
pub proof fn lemma_evaluation_antisymmetric(h1: i32, h2: i32, left: int, right: int, match_diff: int)
    requires
        -50 < match_diff < 50,
    ensures
        evaluation(h1, h2, left, right, match_diff) + evaluation(h2, h1, left, right, -match_diff)
            == (lock_in_term(h1, left, right) + lock_in_term(h2, left, right)) * (phase_suit(
            tiles_left(h1, h2),
        ) * 10),
        lock_in_term(h1, left, right) == 0 && lock_in_term(h2, left, right) == 0 ==> evaluation(
            h1,
            h2,
            left,
            right,
            match_diff,
        ) == -evaluation(h2, h1, left, right, -match_diff),
{
    lemma_terms_antisymmetric(h1, h2, left, right);
    let total = tiles_left(h1, h2);
    let wp = phase_pip(total) * 10;
    let wm = phase_mob(total) * 10;
    let ws = phase_suit(total) * 10;
    let wd = phase_dbl(total);
    let p = pip_term(h1, h2);
    let m = mobility_term(h1, h2, left, right);
    let sc = suit_control_term(h1, h2, left, right);
    let d = double_term(h1, h2);
    let l1 = lock_in_term(h1, left, right);
    let l2 = lock_in_term(h2, left, right);
    assert(p * wp + (-p) * wp == 0) by (nonlinear_arith);
    assert(m * wm + (-m) * wm == 0) by (nonlinear_arith);
    assert(d * wd + (-d) * wd == 0) by (nonlinear_arith);
    assert((sc + l2) * ws + (-sc + l1) * ws == (l1 + l2) * ws) by (nonlinear_arith);
    assert(l1 + l2 == 0 ==> (l1 + l2) * ws == 0) by (nonlinear_arith);
}

/// The doubles of a hand are its tiles under the double mask.
proof fn lemma_doubles(hand: i32)
    requires
        valid_hand(hand),
    ensures
        valid_hand(hand & DOUBLE_MASK),
        hand_tiles(hand & DOUBLE_MASK) == hand_tiles(hand).filter(double_pred()),
{
    lemma_hand_ops(hand, DOUBLE_MASK);
    lemma_hand_tiles(hand);
    lemma_hand_tiles(hand & DOUBLE_MASK);
    assert forall|t: int| 0 <= t < 28 implies bit_set(DOUBLE_MASK as u32, t)
        == #[trigger] double_pred()(t) by {
        lemma_masks(t);
    }
    let d = DOUBLE_MASK;
    assert((hand & d) as u32 == (hand as u32) & (d as u32)) by (bit_vector);
    lemma_mask_filter(hand as u32, DOUBLE_MASK as u32, double_pred(), 28);
}

/// The weight of at most 28 tiles lies between 0 and 210 tenths for each.
proof fn lemma_double_load_bound(tiles: Seq<int>)
    requires
        forall|i: int| 0 <= i < tiles.len() ==> is_tile(#[trigger] tiles[i]),
    ensures
        0 <= double_load(tiles) <= 210 * tiles.len(),
    decreases tiles.len(),
{
    if tiles.len() > 0 {
        lemma_double_load_bound(tiles.drop_last());
        lemma_tile_tables(tiles.last());
    }
}

/// The weight of the doubles of a hand, in tenths of a point.
fn double_load_of(hand: i32) -> (load: i32)
    requires
        valid_hand(hand),
    ensures
        load == double_load(hand_tiles(hand).filter(double_pred())),
        0 <= load <= 5880,
{
    let doubles: i32 = hand & DOUBLE_MASK;
    let ghost tiles = hand_tiles(doubles);
    let mut load: i32 = 0;
    let mut m: u32 = doubles as u32;
    let ghost mut k: int = 0;
    proof {
        lemma_doubles(hand);
        lemma_hand_tiles(doubles);
        lemma_double_load_bound(tiles);
        assert(tiles.skip(0) =~= tiles);
        assert(tiles.take(0) =~= Seq::<int>::empty());
    }
    while m != 0
        invariant
            tiles == hand_tiles(doubles),
            tiles.len() <= 28,
            forall|i: int| 0 <= i < tiles.len() ==> is_tile(#[trigger] tiles[i]),
            0 <= k <= tiles.len(),
            mask_bits(m) == tiles.skip(k),
            load == double_load(tiles.take(k)),
            0 <= load <= 210 * k,
        decreases m,
    {
        let (idx, rest) = take_lowest(m);
        proof {
            assert(tiles.skip(k)[0] == tiles[k]);
            assert(tiles.skip(k).skip(1) =~= tiles.skip(k + 1));
            assert(tiles.take(k + 1).drop_last() =~= tiles.take(k));
            lemma_tile_tables(idx as int);
        }
        load += (TILE_PIPS[idx] as i32 + 2) * W_DOUBLE_TENTHS;
        m = rest;
        proof {
            k = k + 1;
        }
    }
    proof {
        lemma_no_bits(32);
        assert(tiles.skip(k).len() == 0);
        assert(tiles.take(k) =~= tiles);
    }
    load
}

/// The number of tiles of suit `v` in a hand.
fn suit_count_of(hand: i32, v: i8) -> (n: i32)
    requires
        valid_hand(hand),
        0 <= v <= 6,
    ensures
        n == suit_count(hand, v as int),
        0 <= n <= 28,
{
    proof {
        lemma_suit_tiles(hand, v as int, v as int);
        lemma_hand_tiles(SUIT_MASK[v as int] & hand);
    }
    popcount(SUIT_MASK[v as usize] & hand)
}

/// The ghost term, in points.
fn ghost_of(ai_hand: i32, human_hand: i32) -> (g: i32)
    requires
        valid_hand(ai_hand),
        valid_hand(human_hand),
    ensures
        g == ghost_term(ai_hand, human_hand),
        -10 <= g <= 10,
{
    let both_hands: i32 = ai_hand | human_hand;
    proof {
        lemma_hand_ops(ai_hand, human_hand);
        lemma_hand_ops(both_hands, ZERO_SUIT_NO_00);
        lemma_hand_ops(ai_hand, TILE_00_BIT);
        lemma_hand_ops(human_hand, TILE_00_BIT);
        lemma_hand_tiles(both_hands & ZERO_SUIT_NO_00);
        lemma_hand_tiles(ai_hand & TILE_00_BIT);
        lemma_hand_tiles(human_hand & TILE_00_BIT);
        lemma_masks(0);
        assert forall|t: int| 1 <= t <= 6 implies has_tile(ZERO_SUIT_NO_00, t) by {
            lemma_masks(t);
        }
        if (both_hands & ZERO_SUIT_NO_00) != 0 {
            let s = hand_tiles(both_hands & ZERO_SUIT_NO_00);
            assert(has_tile(both_hands & ZERO_SUIT_NO_00, s[0]));
            lemma_masks(s[0]);
            assert(has_tile(both_hands, s[0]));
        } else {
            assert forall|t: int| 1 <= t <= 6 implies !has_tile(both_hands, t) by {
                assert(has_tile(both_hands & ZERO_SUIT_NO_00, t) == (has_tile(both_hands, t)
                    && has_tile(ZERO_SUIT_NO_00, t)));
            }
        }
        if (ai_hand & TILE_00_BIT) != 0 {
            let s = hand_tiles(ai_hand & TILE_00_BIT);
            assert(has_tile(ai_hand & TILE_00_BIT, s[0]));
            lemma_masks(s[0]);
        } else {
            assert(has_tile(ai_hand & TILE_00_BIT, 0) == (has_tile(ai_hand, 0) && has_tile(
                TILE_00_BIT,
                0,
            )));
        }
        if (human_hand & TILE_00_BIT) != 0 {
            let s = hand_tiles(human_hand & TILE_00_BIT);
            assert(has_tile(human_hand & TILE_00_BIT, s[0]));
            lemma_masks(s[0]);
        } else {
            assert(has_tile(human_hand & TILE_00_BIT, 0) == (has_tile(human_hand, 0) && has_tile(
                TILE_00_BIT,
                0,
            )));
        }
    }
    let mut ghost_pts: i32 = 0;
    if (both_hands & ZERO_SUIT_NO_00) == 0 {
        if (human_hand & TILE_00_BIT) != 0 {
            ghost_pts = W_GHOST;
        }
        if (ai_hand & TILE_00_BIT) != 0 {
            ghost_pts -= W_GHOST;
        }
    }
    ghost_pts
}

/// The suit terms, in points: suit control and the lock-in of the opponent.
fn suit_score_of(ai_hand: i32, human_hand: i32, left: i8, right: i8) -> (s: i32)
    requires
        valid_hand(ai_hand),
        valid_hand(human_hand),
        board_ok(left as int, right as int),
    ensures
        s == suit_control_term(ai_hand, human_hand, left as int, right as int) + lock_in_term(
            human_hand,
            left as int,
            right as int,
        ),
        -199 <= s <= 199,
{
    let mut suit_score: i32 = 0;
    if left != 7 {
        if left == right {
            let ai_l: i32 = suit_count_of(ai_hand, left);
            let h_l: i32 = suit_count_of(human_hand, left);
            suit_score = (ai_l - h_l) * W_SUIT * 2;
            if h_l == 0 {
                suit_score += W_LOCKIN * 2 + W_LOCKIN_BOTH;
            }
        } else {
            let ai_l: i32 = suit_count_of(ai_hand, left);
            let ai_r: i32 = suit_count_of(ai_hand, right);
            let h_l: i32 = suit_count_of(human_hand, left);
            let h_r: i32 = suit_count_of(human_hand, right);
            suit_score = (ai_l + ai_r - h_l - h_r) * W_SUIT;
            if h_l == 0 {
                suit_score += W_LOCKIN;
            }
            if h_r == 0 {
                suit_score += W_LOCKIN;
            }
            if h_l == 0 && h_r == 0 {
                suit_score += W_LOCKIN_BOTH;
            }
        }
    }
    suit_score
}

/// The static evaluation of a position from the engine's side, in hundredths
/// of a point: positive is good for the engine.
///
/// `left` and `right` are the open ends (7: the empty board), `match_diff`
/// the engine's match score less the opponent's.
pub fn evaluate_bb(ai_hand: i32, human_hand: i32, left: i8, right: i8, match_diff: i32) -> (score:
    i32)
    requires
        valid_hand(ai_hand),
        valid_hand(human_hand),
        board_ok(left as int, right as int),
    ensures
        score == evaluation(ai_hand, human_hand, left as int, right as int, match_diff as int),
        -400000 < score < 400000,
{
    proof {
        lemma_hand_ops(ai_hand, human_hand);
        lemma_hand_tiles(ai_hand);
        lemma_hand_tiles(human_hand);
    }
    let both_hands: i32 = ai_hand | human_hand;

    let ai_pips: i32 = total_pips_bb(ai_hand, both_hands);
    let human_pips: i32 = total_pips_bb(human_hand, both_hands);
    let pip_score: i32 = (human_pips - ai_pips) * W_PIP;

    let ai_mob: i32 = count_moves_bb(ai_hand, left, right);
    let human_mob: i32 = count_moves_bb(human_hand, left, right);
    let mob_score: i32 = (ai_mob - human_mob) * W_MOBILITY;

    let ai_count: i32 = popcount(ai_hand);
    let human_count: i32 = popcount(human_hand);
    let tile_score: i32 = (human_count - ai_count) * W_TILE;

    let suit_score: i32 = suit_score_of(ai_hand, human_hand, left, right);
    let ghost_pts: i32 = ghost_of(ai_hand, human_hand);
    let double_pen: i32 = double_load_of(human_hand) - double_load_of(ai_hand);

    let total_remaining: i32 = ai_count + human_count;
    let (mut pip_w, mut mob_w, mut suit_w, dbl_w): (i32, i32, i32, i32) = if total_remaining >= 20 {
        (7, 15, 13, 13)
    } else if total_remaining < 8 {
        (15, 6, 15, 10)
    } else {
        (10, 10, 10, 10)
    };
    if match_diff >= 50 {
        pip_w = pip_w * 14;
        suit_w = suit_w * 6;
        mob_w = mob_w * 10;
    } else if match_diff <= -50 {
        pip_w = pip_w * 7;
        suit_w = suit_w * 15;
        mob_w = mob_w * 13;
    } else {
        pip_w = pip_w * 10;
        suit_w = suit_w * 10;
        mob_w = mob_w * 10;
    }
    assert(-698 <= pip_score <= 698);
    assert(-112 <= mob_score <= 112);
    assert(0 <= pip_w <= 210 && 0 <= mob_w <= 195 && 0 <= suit_w <= 225);
    assert(-146580 <= pip_score * pip_w <= 146580) by (nonlinear_arith)
        requires
            -698 <= pip_score <= 698,
            0 <= pip_w <= 210,
    ;
    assert(-21840 <= mob_score * mob_w <= 21840) by (nonlinear_arith)
        requires
            -112 <= mob_score <= 112,
            0 <= mob_w <= 195,
    ;
    assert(-44775 <= suit_score * suit_w <= 44775) by (nonlinear_arith)
        requires
            -199 <= suit_score <= 199,
            0 <= suit_w <= 225,
    ;
    assert(-76440 <= double_pen * dbl_w <= 76440) by (nonlinear_arith)
        requires
            -5880 <= double_pen <= 5880,
            0 <= dbl_w <= 13,
    ;
    pip_score * pip_w + mob_score * mob_w + tile_score * SCALE + suit_score * suit_w + ghost_pts
        * SCALE + double_pen * dbl_w
}

/// An evaluation in whole points: the hundredths cut off, towards zero.
pub fn to_points(hundredths: i32) -> (points: i32)
    requires
        -400000 < hundredths < 400000,
    ensures
        points == whole_points(hundredths as int),
        -4000 <= points <= 4000,
{
    if hundredths >= 0 {
        hundredths / SCALE
    } else {
        -((-hundredths) / SCALE)
    }
}

} // verus!
