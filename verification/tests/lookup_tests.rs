use domino_ai::lookup::{
    popcount, tile_id_to_index, DOUBLE_MASK, NEW_END_LEFT, NEW_END_RIGHT, SUIT_MASK, TILE_00_BIT,
    TILE_HIGH, TILE_ID_MAP, TILE_IS_DOUBLE, TILE_LOW, TILE_PIPS, ZERO_SUIT_NO_00,
};

#[test]
fn test_tile_count() {
    let mut count = 0;
    for i in 0..=6 {
        for j in i..=6 {
            let idx = TILE_ID_MAP[i][j];
            assert!(idx >= 0 && idx < 28, "Invalid index for ({},{}): {}", i, j, idx);
            count += 1;
        }
    }
    assert_eq!(count, 28);
}

#[test]
fn test_tile_low_high() {
    assert_eq!(TILE_LOW[0], 0);
    assert_eq!(TILE_HIGH[0], 0);
    assert_eq!(TILE_LOW[27], 6);
    assert_eq!(TILE_HIGH[27], 6);
    assert_eq!(TILE_LOW[6], 0);
    assert_eq!(TILE_HIGH[6], 6);
}

#[test]
fn test_suit_mask() {
    assert_eq!(popcount(SUIT_MASK[0]), 7);
    assert_eq!(popcount(SUIT_MASK[6]), 7);
}

#[test]
fn test_double_mask() {
    assert_eq!(popcount(DOUBLE_MASK), 7);
}

#[test]
fn test_zero_suit_no_00() {
    assert_eq!(popcount(ZERO_SUIT_NO_00), 6);
    assert_eq!(ZERO_SUIT_NO_00 & TILE_00_BIT, 0);
}

#[test]
fn test_new_end_left() {
    let idx = tile_id_to_index(0, 6);
    assert_eq!(NEW_END_LEFT[idx * 8 + 6], 0);
    assert_eq!(NEW_END_LEFT[idx * 8 + 0], 6);
    assert_eq!(NEW_END_LEFT[idx * 8 + 3], -1);
}

#[test]
fn test_new_end_right() {
    let idx = tile_id_to_index(3, 5);
    assert_eq!(NEW_END_RIGHT[idx * 8 + 3], 5);
    assert_eq!(NEW_END_RIGHT[idx * 8 + 5], 3);
}

#[test]
fn test_popcount() {
    assert_eq!(popcount(0), 0);
    assert_eq!(popcount(1), 1);
    assert_eq!(popcount(0b1111), 4);
    assert_eq!(popcount(0x0FFFFFFF), 28);
}

#[test]
fn tables_follow_the_tile_order() {
    let mut idx = 0usize;
    for lo in 0..=6i8 {
        for hi in lo..=6i8 {
            assert_eq!(TILE_LOW[idx], lo);
            assert_eq!(TILE_HIGH[idx], hi);
            assert_eq!(TILE_PIPS[idx], lo + hi);
            assert_eq!(TILE_IS_DOUBLE[idx], lo == hi);
            assert_eq!(tile_id_to_index(lo, hi), idx);
            assert_eq!(tile_id_to_index(hi, lo), idx);
            assert!(TILE_LOW[idx] <= TILE_HIGH[idx]);
            idx += 1;
        }
    }
    assert_eq!(idx, 28);
}

#[test]
fn suit_masks_hold_the_tiles_of_each_suit() {
    for v in 0..7usize {
        for t in 0..28usize {
            let in_suit = TILE_LOW[t] as usize == v || TILE_HIGH[t] as usize == v;
            assert_eq!(SUIT_MASK[v] & (1 << t) != 0, in_suit);
        }
        assert_eq!(SUIT_MASK[v] >> 28, 0);
    }
    for t in 0..28usize {
        assert_eq!(DOUBLE_MASK & (1 << t) != 0, TILE_LOW[t] == TILE_HIGH[t]);
    }
    assert_eq!(ZERO_SUIT_NO_00, SUIT_MASK[0] & !TILE_00_BIT);
}

#[test]
fn new_end_tables_give_the_other_half() {
    for t in 0..28usize {
        let lo = TILE_LOW[t];
        let hi = TILE_HIGH[t];
        for v in 0..7i8 {
            let left = if hi == v { lo } else if lo == v { hi } else { -1 };
            let right = if lo == v { hi } else if hi == v { lo } else { -1 };
            assert_eq!(NEW_END_LEFT[t * 8 + v as usize], left);
            assert_eq!(NEW_END_RIGHT[t * 8 + v as usize], right);
        }
        assert_eq!(NEW_END_LEFT[t * 8 + 7], lo);
        assert_eq!(NEW_END_RIGHT[t * 8 + 7], hi);
    }
}

#[test]
fn popcount_counts_the_sign_bit() {
    assert_eq!(popcount(-1), 32);
    assert_eq!(popcount(i32::MIN), 1);
}
