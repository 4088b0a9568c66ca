//! The 28 tiles of the double-six set: their indices, pips and suits, and the
//! end that a tile leaves open when it is placed.
//!
//! Tiles are indexed in lexicographic `(low, high)` order:
//! (0,0), (0,1), .., (0,6), (1,1), .., (6,6).
use vstd::prelude::*;
use crate::bitset::{bit_set, bits_below, mask_bits, lemma_bits_above, lemma_bits_below};

verus! {

/// The number of tiles of the double-six set.
pub const NUM_TILES: usize = 28;

/// Low pip value of each tile.
pub const TILE_LOW: [i8; 28] = [
    0, 0, 0, 0, 0, 0, 0,
    1, 1, 1, 1, 1, 1,
    2, 2, 2, 2, 2,
    3, 3, 3, 3,
    4, 4, 4,
    5, 5,
    6,
];

/// High pip value of each tile.
pub const TILE_HIGH: [i8; 28] = [
    0, 1, 2, 3, 4, 5, 6,
    1, 2, 3, 4, 5, 6,
    2, 3, 4, 5, 6,
    3, 4, 5, 6,
    4, 5, 6,
    5, 6,
    6,
];

/// Pip total of each tile.
pub const TILE_PIPS: [i8; 28] = [
    0, 1, 2, 3, 4, 5, 6,
    2, 3, 4, 5, 6, 7,
    4, 5, 6, 7, 8,
    6, 7, 8, 9,
    8, 9, 10,
    10, 11,
    12,
];

/// Whether each tile is a double.
pub const TILE_IS_DOUBLE: [bool; 28] = [
    true, false, false, false, false, false, false,
    true, false, false, false, false, false,
    true, false, false, false, false,
    true, false, false, false,
    true, false, false,
    true, false,
    true,
];

/// For each pip value 0..6, the mask of the tiles that carry it.
pub const SUIT_MASK: [i32; 7] = [
    0x000007f,
    0x0001f82,
    0x003e104,
    0x03c4208,
    0x1c88410,
    0x6910820,
    0xd221040,
];

/// The mask of the seven doubles.
pub const DOUBLE_MASK: i32 = 0xa442081;

/// The bit of the (0,0) tile.
pub const TILE_00_BIT: i32 = 1;

/// The mask of (0,1) .. (0,6): the zero suit without (0,0).
pub const ZERO_SUIT_NO_00: i32 = 0x7e;

/// The mask of all 28 tiles.
pub const ALL_TILES: i32 = 0xfff_ffff;

/// The left end after placing tile `t` against left end `v`, at `t * 8 + v`;
/// `v == 7` is the empty board; -1 where the tile does not match.
pub const NEW_END_LEFT: [i8; 224] = [
     0, -1, -1, -1, -1, -1, -1,  0,
     1,  0, -1, -1, -1, -1, -1,  0,
     2, -1,  0, -1, -1, -1, -1,  0,
     3, -1, -1,  0, -1, -1, -1,  0,
     4, -1, -1, -1,  0, -1, -1,  0,
     5, -1, -1, -1, -1,  0, -1,  0,
     6, -1, -1, -1, -1, -1,  0,  0,
    -1,  1, -1, -1, -1, -1, -1,  1,
    -1,  2,  1, -1, -1, -1, -1,  1,
    -1,  3, -1,  1, -1, -1, -1,  1,
    -1,  4, -1, -1,  1, -1, -1,  1,
    -1,  5, -1, -1, -1,  1, -1,  1,
    -1,  6, -1, -1, -1, -1,  1,  1,
    -1, -1,  2, -1, -1, -1, -1,  2,
    -1, -1,  3,  2, -1, -1, -1,  2,
    -1, -1,  4, -1,  2, -1, -1,  2,
    -1, -1,  5, -1, -1,  2, -1,  2,
    -1, -1,  6, -1, -1, -1,  2,  2,
    -1, -1, -1,  3, -1, -1, -1,  3,
    -1, -1, -1,  4,  3, -1, -1,  3,
    -1, -1, -1,  5, -1,  3, -1,  3,
    -1, -1, -1,  6, -1, -1,  3,  3,
    -1, -1, -1, -1,  4, -1, -1,  4,
    -1, -1, -1, -1,  5,  4, -1,  4,
    -1, -1, -1, -1,  6, -1,  4,  4,
    -1, -1, -1, -1, -1,  5, -1,  5,
    -1, -1, -1, -1, -1,  6,  5,  5,
    -1, -1, -1, -1, -1, -1,  6,  6,
];

/// The right end after placing tile `t` against right end `v`, at `t * 8 + v`.
pub const NEW_END_RIGHT: [i8; 224] = [
     0, -1, -1, -1, -1, -1, -1,  0,
     1,  0, -1, -1, -1, -1, -1,  1,
     2, -1,  0, -1, -1, -1, -1,  2,
     3, -1, -1,  0, -1, -1, -1,  3,
     4, -1, -1, -1,  0, -1, -1,  4,
     5, -1, -1, -1, -1,  0, -1,  5,
     6, -1, -1, -1, -1, -1,  0,  6,
    -1,  1, -1, -1, -1, -1, -1,  1,
    -1,  2,  1, -1, -1, -1, -1,  2,
    -1,  3, -1,  1, -1, -1, -1,  3,
    -1,  4, -1, -1,  1, -1, -1,  4,
    -1,  5, -1, -1, -1,  1, -1,  5,
    -1,  6, -1, -1, -1, -1,  1,  6,
    -1, -1,  2, -1, -1, -1, -1,  2,
    -1, -1,  3,  2, -1, -1, -1,  3,
    -1, -1,  4, -1,  2, -1, -1,  4,
    -1, -1,  5, -1, -1,  2, -1,  5,
    -1, -1,  6, -1, -1, -1,  2,  6,
    -1, -1, -1,  3, -1, -1, -1,  3,
    -1, -1, -1,  4,  3, -1, -1,  4,
    -1, -1, -1,  5, -1,  3, -1,  5,
    -1, -1, -1,  6, -1, -1,  3,  6,
    -1, -1, -1, -1,  4, -1, -1,  4,
    -1, -1, -1, -1,  5,  4, -1,  5,
    -1, -1, -1, -1,  6, -1,  4,  6,
    -1, -1, -1, -1, -1,  5, -1,  5,
    -1, -1, -1, -1, -1,  6,  5,  6,
    -1, -1, -1, -1, -1, -1,  6,  6,
];

/// The index of the tile `(low, high)`, at `[low][high]`; -1 where `low > high`.
pub const TILE_ID_MAP: [[i8; 7]; 7] = [
    [ 0,  1,  2,  3,  4,  5,  6],
    [-1,  7,  8,  9, 10, 11, 12],
    [-1, -1, 13, 14, 15, 16, 17],
    [-1, -1, -1, 18, 19, 20, 21],
    [-1, -1, -1, -1, 22, 23, 24],
    [-1, -1, -1, -1, -1, 25, 26],
    [-1, -1, -1, -1, -1, -1, 27],
];

/// The index of the first tile whose low value is `low`.
pub open spec fn row_start(low: int) -> int {
    if low <= 0 {
        0
    } else if low == 1 {
        7
    } else if low == 2 {
        13
    } else if low == 3 {
        18
    } else if low == 4 {
        22
    } else if low == 5 {
        25
    } else {
        27
    }
}

/// The index of the tile `(low, high)`, for `0 <= low <= high <= 6`.
pub open spec fn tile_index(low: int, high: int) -> int {
    row_start(low) + (high - low)
}

/// The low value of tile `t`.
pub open spec fn tile_low(t: int) -> int {
    if t < 7 {
        0
    } else if t < 13 {
        1
    } else if t < 18 {
        2
    } else if t < 22 {
        3
    } else if t < 25 {
        4
    } else if t < 27 {
        5
    } else {
        6
    }
}

/// The high value of tile `t`.
pub open spec fn tile_high(t: int) -> int {
    t - row_start(tile_low(t)) + tile_low(t)
}

/// The pip total of tile `t`.
pub open spec fn tile_pips(t: int) -> int {
    tile_low(t) + tile_high(t)
}

/// Tile `t` is a double.
pub open spec fn is_double(t: int) -> bool {
    tile_low(t) == tile_high(t)
}

/// `t` is the index of a tile.
pub open spec fn is_tile(t: int) -> bool {
    0 <= t < 28
}

/// Tile `t` carries the pip value `v` on one of its halves.
pub open spec fn has_suit(t: int, v: int) -> bool {
    is_tile(t) && (tile_low(t) == v || tile_high(t) == v)
}

/// The test for tiles of suit `v`.
pub open spec fn suit_pred(v: int) -> spec_fn(int) -> bool {
    |t: int| has_suit(t, v)
}

/// The test for tiles of suit `v` and suit `w`.
pub open spec fn both_suits_pred(v: int, w: int) -> spec_fn(int) -> bool {
    |t: int| has_suit(t, v) && has_suit(t, w)
}

/// The test for tiles of suit `v` or suit `w`.
pub open spec fn either_suit_pred(v: int, w: int) -> spec_fn(int) -> bool {
    |t: int| has_suit(t, v) || has_suit(t, w)
}

/// The value left open on the left when tile `t` is placed against the left
/// end `v` (7: the empty board); -1 when the tile does not match.
pub open spec fn new_end_left(t: int, v: int) -> int {
    if v == 7 {
        tile_low(t)
    } else if tile_high(t) == v {
        tile_low(t)
    } else if tile_low(t) == v {
        tile_high(t)
    } else {
        -1
    }
}

/// The value left open on the right when tile `t` is placed against the right
/// end `v` (7: the empty board); -1 when the tile does not match.
pub open spec fn new_end_right(t: int, v: int) -> int {
    if v == 7 {
        tile_high(t)
    } else if tile_low(t) == v {
        tile_high(t)
    } else if tile_high(t) == v {
        tile_low(t)
    } else {
        -1
    }
}

/// A hand is a mask over the 28 tile indices.
pub open spec fn valid_hand(hand: i32) -> bool {
    0 <= hand <= ALL_TILES
}

/// The hand holds tile `t`.
pub open spec fn has_tile(hand: i32, t: int) -> bool {
    bit_set(hand as u32, t)
}

/// The tiles of a hand, in ascending order of index.
pub open spec fn hand_tiles(hand: i32) -> Seq<int> {
    mask_bits(hand as u32)
}

/// The tile tables hold what the tile functions say.
pub proof fn lemma_tile_tables(t: int)
    requires
        0 <= t < 28,
    ensures
        TILE_LOW[t] == tile_low(t),
        TILE_HIGH[t] == tile_high(t),
        TILE_PIPS[t] == tile_pips(t),
        TILE_IS_DOUBLE[t] == is_double(t),
        0 <= tile_low(t) <= tile_high(t) <= 6,
        tile_index(tile_low(t), tile_high(t)) == t,
{
}

/// The index table inverts the tile functions.
pub proof fn lemma_tile_index(low: int, high: int)
    requires
        0 <= low <= high <= 6,
    ensures
        0 <= tile_index(low, high) < 28,
        TILE_ID_MAP[low][high] == tile_index(low, high),
        tile_low(tile_index(low, high)) == low,
        tile_high(tile_index(low, high)) == high,
{
}

/// The transition tables hold what `new_end_left` and `new_end_right` say.
pub proof fn lemma_new_end_tables(t: int, v: int)
    requires
        0 <= t < 28,
        0 <= v <= 7,
    ensures
        NEW_END_LEFT[t * 8 + v] == new_end_left(t, v),
        NEW_END_RIGHT[t * 8 + v] == new_end_right(t, v),
        v < 7 ==> (new_end_left(t, v) >= 0 <==> has_suit(t, v)),
        v < 7 ==> (new_end_right(t, v) >= 0 <==> has_suit(t, v)),
        -1 <= new_end_left(t, v) <= 6,
        -1 <= new_end_right(t, v) <= 6,
        v == 7 || has_suit(t, v) ==> new_end_left(t, v) >= 0 && new_end_right(t, v) >= 0,
{
    lemma_tile_tables(t);
}

/// std's `u32::count_ones`, documented to return the number of ones in the
/// binary representation: here, the number of set bit positions.
pub assume_specification[ u32::count_ones ](x: u32) -> (r: u32)
    ensures
        r == mask_bits(x).len(),
;

/// The number of set bits of `x`.
pub fn popcount(x: i32) -> (r: i32)
    ensures
        r == mask_bits(x as u32).len(),
        0 <= r <= 32,
{
    proof {
        lemma_bits_below(x as u32, 32);
    }
    (x as u32).count_ones() as i32
}

/// A valid hand holds tiles only, and as many as `popcount` counts.
pub proof fn lemma_hand_tiles(hand: i32)
    requires
        valid_hand(hand),
    ensures
        hand_tiles(hand) == bits_below(hand as u32, 28),
        hand_tiles(hand).len() <= 28,
        forall|i: int| 0 <= i < hand_tiles(hand).len() ==> is_tile(#[trigger] hand_tiles(hand)[i]),
        forall|i: int|
            0 <= i < hand_tiles(hand).len() ==> has_tile(hand, #[trigger] hand_tiles(hand)[i]),
        forall|i: int, j: int|
            0 <= i < j < hand_tiles(hand).len() ==> hand_tiles(hand)[i] < hand_tiles(hand)[j],
        forall|t: int| #[trigger] has_tile(hand, t) ==> is_tile(t) && hand_tiles(hand).contains(t),
        hand == 0 <==> hand_tiles(hand).len() == 0,
{
    let m = hand as u32;
    assert forall|t: int| 28 <= t < 32 implies !bit_set(m, t) by {
        let tu = t as u32;
        assert((m >> tu) & 1 == 0) by (bit_vector)
            requires
                m <= 0xfff_ffff,
                28 <= tu < 32,
        ;
    }
    lemma_bits_above(m, 28, 32);
    lemma_bits_below(m, 28);
    if hand == 0 {
        crate::bitset::lemma_no_bits(28);
    } else {
        vstd::std_specs::bits::axiom_u32_trailing_zeros(m);
        let tz = vstd::std_specs::bits::u32_trailing_zeros(m);
        assert(bit_set(m, tz as int));
        assert(hand_tiles(hand).contains(tz as int));
    }
}

/// The bits of the suit masks, the double mask and the zero-suit mask.
pub proof fn lemma_masks(t: int)
    requires
        0 <= t < 32,
    ensures
        forall|v: int| 0 <= v <= 6 ==> has_tile(#[trigger] SUIT_MASK[v], t) == has_suit(t, v),
        has_tile(DOUBLE_MASK, t) == (is_tile(t) && is_double(t)),
        has_tile(TILE_00_BIT, t) == (t == 0),
        has_tile(ZERO_SUIT_NO_00, t) == (1 <= t <= 6),
        has_tile(ALL_TILES, t) == is_tile(t),
{
    let tu = t as u32;
    assert(((0x000007fu32 >> tu) & 1 == 1) <==> tu < 7) by (bit_vector)
        requires
            tu < 32,
    ;
    assert(((0x0001f82u32 >> tu) & 1 == 1) <==> (tu == 1 || (7 <= tu && tu <= 12))) by (bit_vector)
        requires
            tu < 32,
    ;
    assert(((0x003e104u32 >> tu) & 1 == 1) <==> (tu == 2 || tu == 8 || (13 <= tu && tu <= 17)))
        by (bit_vector)
        requires
            tu < 32,
    ;
    assert(((0x03c4208u32 >> tu) & 1 == 1) <==> (tu == 3 || tu == 9 || tu == 14 || (18 <= tu && tu
        <= 21))) by (bit_vector)
        requires
            tu < 32,
    ;
    assert(((0x1c88410u32 >> tu) & 1 == 1) <==> (tu == 4 || tu == 10 || tu == 15 || tu == 19 || (22
        <= tu && tu <= 24))) by (bit_vector)
        requires
            tu < 32,
    ;
    assert(((0x6910820u32 >> tu) & 1 == 1) <==> (tu == 5 || tu == 11 || tu == 16 || tu == 20 || tu
        == 23 || tu == 25 || tu == 26)) by (bit_vector)
        requires
            tu < 32,
    ;
    assert(((0xd221040u32 >> tu) & 1 == 1) <==> (tu == 6 || tu == 12 || tu == 17 || tu == 21 || tu
        == 24 || tu == 26 || tu == 27)) by (bit_vector)
        requires
            tu < 32,
    ;
    assert(((0xa442081u32 >> tu) & 1 == 1) <==> (tu == 0 || tu == 7 || tu == 13 || tu == 18 || tu
        == 22 || tu == 25 || tu == 27)) by (bit_vector)
        requires
            tu < 32,
    ;
    assert((((1u32 >> tu) & 1 == 1) <==> tu == 0) && (((0x7eu32 >> tu) & 1 == 1) <==> (1 <= tu && tu
        <= 6)) && (((0xfff_ffffu32 >> tu) & 1 == 1) <==> tu < 28)) by (bit_vector)
        requires
            tu < 32,
    ;
    assert forall|v: int| 0 <= v <= 6 implies has_tile(#[trigger] SUIT_MASK[v], t) == has_suit(
        t,
        v,
    ) by {}
}

/// The seven tiles of suit `v`, ascending: `v` with each of the values 0..6.
pub open spec fn suit_row(v: int) -> Seq<int> {
    Seq::new(
        7,
        |i: int|
            if i <= v {
                tile_index(i, v)
            } else {
                tile_index(v, i)
            },
    )
}

/// The seven doubles, ascending.
pub open spec fn double_row() -> Seq<int> {
    Seq::new(7, |i: int| tile_index(i, i))
}

/// The mask of a suit holds the seven tiles of the suit, its double once;
/// the double mask holds the seven doubles; and the zero-suit mask is the
/// mask of suit 0 without the bit of (0,0).
pub proof fn lemma_mask_rows(v: int)
    requires
        0 <= v <= 6,
    ensures
        hand_tiles(SUIT_MASK[v]) == suit_row(v),
        hand_tiles(SUIT_MASK[v]).len() == 7,
        hand_tiles(DOUBLE_MASK) == double_row(),
        hand_tiles(DOUBLE_MASK).len() == 7,
        ZERO_SUIT_NO_00 == SUIT_MASK[0] & !TILE_00_BIT,
{
    let row = suit_row(v);
    assert forall|t: int| row.contains(t) <==> bit_set(SUIT_MASK[v] as u32, t) by {
        if row.contains(t) {
            let i = choose|i: int| 0 <= i < row.len() && row[i] == t;
            lemma_masks(t);
        }
        if bit_set(SUIT_MASK[v] as u32, t) {
            lemma_masks(t);
            assert(has_tile(SUIT_MASK[v], t) == has_suit(t, v));
            let other = tile_low(t) + tile_high(t) - v;
            assert(row[other] == t);
        }
    }
    crate::bitset::lemma_mask_bits_are(SUIT_MASK[v] as u32, row);
    let doubles = double_row();
    assert forall|t: int| doubles.contains(t) <==> bit_set(DOUBLE_MASK as u32, t) by {
        if doubles.contains(t) {
            let i = choose|i: int| 0 <= i < doubles.len() && doubles[i] == t;
            lemma_masks(t);
        }
        if bit_set(DOUBLE_MASK as u32, t) {
            lemma_masks(t);
            assert(doubles[tile_low(t)] == t);
        }
    }
    crate::bitset::lemma_mask_bits_are(DOUBLE_MASK as u32, doubles);
    assert(0x7ei32 == 0x7fi32 & !1i32) by (bit_vector);
}

/// Intersection, union and difference of hands, tile by tile.
pub proof fn lemma_hand_ops(a: i32, b: i32)
    requires
        valid_hand(a),
        valid_hand(b),
    ensures
        valid_hand(a & b),
        valid_hand(a | b),
        valid_hand(a & !b),
        valid_hand(a ^ b),
        (a & b) as u32 == (a as u32) & (b as u32),
        forall|t: int| #[trigger] has_tile(a & b, t) == (has_tile(a, t) && has_tile(b, t)),
        forall|t: int| #[trigger] has_tile(a | b, t) == (has_tile(a, t) || has_tile(b, t)),
        forall|t: int| #[trigger] has_tile(a & !b, t) == (has_tile(a, t) && !has_tile(b, t)),
        forall|t: int| #[trigger] has_tile(a ^ b, t) == (has_tile(a, t) != has_tile(b, t)),
{
    assert(0 <= (a & b) <= 0xfff_ffff && 0 <= (a | b) <= 0xfff_ffff && 0 <= (a & !b) <= 0xfff_ffff
        && 0 <= (a ^ b) <= 0xfff_ffff && (a & b) as u32 == (a as u32) & (b as u32) && (a | b) as u32
        == (a as u32) | (b as u32) && (a & !b) as u32 == (a as u32) & !(b as u32) && (a ^ b) as u32
        == (a as u32) ^ (b as u32)) by (bit_vector)
        requires
            0 <= a <= 0xfff_ffff,
            0 <= b <= 0xfff_ffff,
    ;
    assert forall|t: int| #[trigger] has_tile(a & b, t) == (has_tile(a, t) && has_tile(b, t)) by {
        if 0 <= t < 32 {
            crate::bitset::lemma_mask_ops(a as u32, b as u32, t);
        }
    }
    assert forall|t: int| #[trigger] has_tile(a | b, t) == (has_tile(a, t) || has_tile(b, t)) by {
        if 0 <= t < 32 {
            crate::bitset::lemma_mask_ops(a as u32, b as u32, t);
        }
    }
    assert forall|t: int| #[trigger] has_tile(a & !b, t) == (has_tile(a, t) && !has_tile(b, t)) by {
        if 0 <= t < 32 {
            crate::bitset::lemma_mask_ops(a as u32, b as u32, t);
        }
    }
    assert forall|t: int| #[trigger] has_tile(a ^ b, t) == (has_tile(a, t) != has_tile(b, t)) by {
        if 0 <= t < 32 {
            crate::bitset::lemma_mask_ops(a as u32, b as u32, t);
        }
    }
}

/// The hand that holds tile `k` alone.
pub proof fn lemma_tile_bit(k: int)
    requires
        is_tile(k),
    ensures
        valid_hand(1i32 << (k as u32)),
        forall|t: int| #[trigger] has_tile(1i32 << (k as u32), t) == (t == k),
{
    let ku = k as u32;
    assert(0 < (1i32 << ku) <= 0xfff_ffff && (1i32 << ku) as u32 == 1u32 << ku) by (bit_vector)
        requires
            ku < 28,
    ;
    assert forall|t: int| #[trigger] has_tile(1i32 << (k as u32), t) == (t == k) by {
        if 0 <= t < 32 {
            crate::bitset::lemma_single_bit(k, t);
        }
    }
}

/// The tiles of suit `v` in a hand are those of the hand under the suit's
/// mask, and likewise for the tiles of either of two suits.
pub proof fn lemma_suit_tiles(hand: i32, v: int, w: int)
    requires
        valid_hand(hand),
        0 <= v <= 6,
        0 <= w <= 6,
    ensures
        valid_hand(SUIT_MASK[v] & hand),
        hand_tiles(SUIT_MASK[v] & hand) == hand_tiles(hand).filter(suit_pred(v)),
        valid_hand((SUIT_MASK[v] | SUIT_MASK[w]) & hand),
        hand_tiles((SUIT_MASK[v] | SUIT_MASK[w]) & hand) == hand_tiles(hand).filter(
            either_suit_pred(v, w),
        ),
        valid_hand(SUIT_MASK[v] & SUIT_MASK[w] & hand),
        hand_tiles(SUIT_MASK[v] & SUIT_MASK[w] & hand) == hand_tiles(hand).filter(
            both_suits_pred(v, w),
        ),
{
    let sv = SUIT_MASK[v];
    let sw = SUIT_MASK[w];
    lemma_hand_ops(sv, sw);
    lemma_hand_ops(sv, hand);
    lemma_hand_ops(sv | sw, hand);
    lemma_hand_tiles(hand);
    lemma_hand_tiles(sv & hand);
    lemma_hand_tiles((sv | sw) & hand);
    assert forall|t: int| 0 <= t < 28 implies bit_set(sv as u32, t) == #[trigger] suit_pred(v)(
        t,
    ) by {
        lemma_masks(t);
        assert(has_tile(SUIT_MASK[v], t) == has_suit(t, v));
    }
    assert forall|t: int| 0 <= t < 28 implies bit_set((sv | sw) as u32, t)
        == #[trigger] either_suit_pred(v, w)(t) by {
        lemma_masks(t);
        assert(has_tile(SUIT_MASK[v], t) == has_suit(t, v));
        assert(has_tile(SUIT_MASK[w], t) == has_suit(t, w));
        assert(has_tile(sv | sw, t) == (has_tile(sv, t) || has_tile(sw, t)));
    }
    lemma_hand_ops(sv & sw, hand);
    lemma_hand_tiles(sv & sw & hand);
    assert forall|t: int| 0 <= t < 28 implies bit_set((sv & sw) as u32, t)
        == #[trigger] both_suits_pred(v, w)(t) by {
        lemma_masks(t);
        assert(has_tile(SUIT_MASK[v], t) == has_suit(t, v));
        assert(has_tile(SUIT_MASK[w], t) == has_suit(t, w));
        assert(has_tile(sv & sw, t) == (has_tile(sv, t) && has_tile(sw, t)));
    }
    assert((sv & sw & hand) as u32 == (hand as u32) & ((sv & sw) as u32)) by (bit_vector);
    crate::bitset::lemma_mask_filter(hand as u32, (sv & sw) as u32, both_suits_pred(v, w), 28);
    assert((sv & hand) as u32 == (hand as u32) & (sv as u32)) by (bit_vector);
    assert(((sv | sw) & hand) as u32 == (hand as u32) & ((sv | sw) as u32)) by (bit_vector);
    crate::bitset::lemma_mask_filter(hand as u32, sv as u32, suit_pred(v), 28);
    crate::bitset::lemma_mask_filter(hand as u32, (sv | sw) as u32, either_suit_pred(v, w), 28);
}

/// The index of the tile with the pip values `low` and `high`, in either
/// order.
pub fn tile_id_to_index(low: i8, high: i8) -> (idx: usize)
    requires
        0 <= low <= 6,
        0 <= high <= 6,
    ensures
        idx < 28,
        idx == tile_index(
            if low <= high { low as int } else { high as int },
            if low <= high { high as int } else { low as int },
        ),
        tile_low(idx as int) == if low <= high { low as int } else { high as int },
        tile_high(idx as int) == if low <= high { high as int } else { low as int },
{
    let lo: usize = if low <= high { low as usize } else { high as usize };
    let hi: usize = if low <= high { high as usize } else { low as usize };
    proof {
        lemma_tile_index(lo as int, hi as int);
    }
    TILE_ID_MAP[lo][hi] as usize
}

} // verus!
