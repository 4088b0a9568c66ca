use domino_ai::zobrist::{
    compute_root_hash, conspass_hash, generate_zobrist, hash_after_passing, hash_after_placement,
    left_hash, right_hash, side_hash, tile_hash, Xorshift32, ZOBRIST_SEED, ZOBRIST_WORDS,
};

#[test]
fn test_xorshift32_first_values() {
    let mut rng = Xorshift32::new(0x12345678);
    let v1 = rng.next();
    let v2 = rng.next();
    assert_ne!(v1, 0);
    assert_ne!(v2, 0);
    assert_ne!(v1, v2);
}

#[test]
fn test_zobrist_tables_populated() {
    let tables = generate_zobrist();
    for i in 0..28 {
        assert_ne!(tables.tile_hash[i][0], 0);
        assert_ne!(tables.tile_hash[i][1], 0);
    }
    assert_ne!(tables.side_hash, 0);
}

#[test]
fn test_root_hash_deterministic() {
    let h1 = compute_root_hash(0b111, 0b111000, 3, 5, true, 0);
    let h2 = compute_root_hash(0b111, 0b111000, 3, 5, true, 0);
    assert_eq!(h1, h2);
}

#[test]
fn test_root_hash_side_matters() {
    let h_ai = compute_root_hash(0b111, 0b111000, 3, 5, true, 0);
    let h_human = compute_root_hash(0b111, 0b111000, 3, 5, false, 0);
    assert_ne!(h_ai, h_human);
}

#[test]
fn xorshift32_follows_its_recurrence() {
    let mut rng = Xorshift32::new(ZOBRIST_SEED);
    assert_eq!(rng.next(), 0x87985aa5);
    assert_eq!(rng.next(), 0x155b24a3);
    assert_eq!(rng.state, 0x155b24a3);
    let mut other = Xorshift32::new(1);
    assert_eq!(other.next(), 270369);
}

#[test]
fn keys_are_drawn_in_table_order() {
    let tables = generate_zobrist();
    let mut rng = Xorshift32::new(ZOBRIST_SEED);
    for t in 0..28 {
        for h in 0..2 {
            let word = rng.next();
            assert_eq!(tables.tile_hash[t][h], word);
            assert_eq!(tile_hash(t, h), word as i32);
            assert_eq!(ZOBRIST_WORDS[2 * t + h], word);
        }
    }
    for v in 0..8 {
        let word = rng.next();
        assert_eq!(tables.left_hash[v], word);
        assert_eq!(left_hash(v), word as i32);
    }
    for v in 0..8 {
        let word = rng.next();
        assert_eq!(tables.right_hash[v], word);
        assert_eq!(right_hash(v), word as i32);
    }
    let word = rng.next();
    assert_eq!(tables.side_hash, word);
    assert_eq!(side_hash(), word as i32);
    for i in 0..2 {
        let word = rng.next();
        assert_eq!(tables.conspass_hash[i], word);
        assert_eq!(conspass_hash(i), word as i32);
    }
}

#[test]
fn root_hash_is_the_xor_of_its_keys() {
    let ai = (1 << 3) | (1 << 20);
    let human = 1 << 5;
    let expected = tile_hash(3, 0) ^ tile_hash(20, 0) ^ tile_hash(5, 1) ^ left_hash(2) ^ right_hash(6);
    assert_eq!(compute_root_hash(ai, human, 2, 6, true, 0), expected);
    assert_eq!(compute_root_hash(ai, human, 2, 6, false, 0), expected ^ side_hash());
    assert_eq!(compute_root_hash(ai, human, 2, 6, true, 1), expected ^ conspass_hash(1));
    assert_eq!(compute_root_hash(ai, human, 2, 6, true, 2), expected ^ conspass_hash(1));
    assert_eq!(compute_root_hash(0, 0, 7, 7, true, 0), left_hash(7) ^ right_hash(7));
}

#[test]
fn hash_follows_a_placement_and_a_pass() {
    // The engine holds (0,1) and (1,1), the opponent (6,6); ends 0 and 3.
    let ai = (1 << 1) | (1 << 7);
    let human = 1 << 27;
    let before = compute_root_hash(ai, human, 0, 3, true, 0);
    // The engine places (0,1) on the left: the left end becomes 1.
    let after = hash_after_placement(before, 1, 0, 0, 1, 3, 3, 0);
    assert_eq!(after, compute_root_hash(1 << 7, human, 1, 3, false, 0));
    // The opponent cannot move and passes.
    let passed = hash_after_passing(after, 0);
    assert_eq!(passed, compute_root_hash(1 << 7, human, 1, 3, true, 1));
    // The engine places (1,1) after the pass: the pending pass is cleared.
    let last = hash_after_placement(passed, 7, 0, 1, 1, 3, 3, 1);
    assert_eq!(last, compute_root_hash(0, human, 1, 3, false, 0));
    // A placement of the opponent takes the key of its own hand.
    let opp = hash_after_placement(after, 27, 1, 1, 1, 3, 3, 0);
    assert_eq!(opp, compute_root_hash(1 << 7, 0, 1, 3, true, 0));
    assert_ne!(opp, hash_after_placement(after, 27, 0, 1, 1, 3, 3, 0));
}
