use domino_ai::scoring::{detect_aggressor_bb, score_block_bb, score_domino_bb, total_pips_bb};

#[test]
fn test_total_pips_simple() {
    let hand = (1 << 0) | (1 << 1) | (1 << 2);
    assert_eq!(total_pips_bb(hand, hand), 0 + 1 + 2);
}

#[test]
fn test_total_pips_ghost13() {
    let hand = 1 << 0;
    let both = 1 << 0;
    assert_eq!(total_pips_bb(hand, both), 13);
}

#[test]
fn test_total_pips_no_ghost13() {
    let hand = (1 << 0) | (1 << 1);
    assert_eq!(total_pips_bb(hand, hand), 0 + 1);
}

#[test]
fn test_score_domino_ai_wins() {
    let human_hand = 1 << 27;
    assert_eq!(score_domino_bb(true, human_hand), 12);
}

#[test]
fn test_score_domino_human_wins() {
    let ai_hand = 1 << 27;
    assert_eq!(score_domino_bb(false, ai_hand), -12);
}

#[test]
fn ghost13_needs_the_zero_suit_gone_from_both_hands() {
    let hand = 1 << 0;
    assert_eq!(total_pips_bb(hand, hand | (1 << 3)), 0);
    assert_eq!(total_pips_bb(hand, hand | (1 << 27)), 13);
    assert_eq!(total_pips_bb(1 << 27, 1 << 27), 12);
    assert_eq!(total_pips_bb(0, 0), 0);
    assert_eq!(total_pips_bb(0x0fff_ffff, 0x0fff_ffff), 168);
}

#[test]
fn domino_counts_the_ghost_tile_of_the_loser() {
    assert_eq!(score_domino_bb(true, 1), 13);
    assert_eq!(score_domino_bb(false, 1 | (1 << 27)), -25);
    assert_eq!(score_domino_bb(true, 0), 0);
}

#[test]
fn aggressor_is_the_last_placer_without_history() {
    assert_eq!(detect_aggressor_bb(1, 0, 0, -1, -1, 0, 0, 1 << 7, 1 << 8), 1);
    assert_eq!(detect_aggressor_bb(0, 0, 0, 5, -1, 0, 0, 1 << 7, 1 << 8), 0);
    assert_eq!(detect_aggressor_bb(1, 0, 0, -1, 0, 3, 3, 1 << 7, 1 << 8), 1);
}

#[test]
fn aggressor_is_the_placer_before_when_the_last_move_was_forced_into_the_block() {
    // Last placer holds (1,1); the tile put back is (0,6); the earlier board
    // was (6,6): one legal tile, and after it neither side can move on (0,6)
    // or (6,0).
    let last = 1 << 7;
    let other = 1 << 8;
    assert_eq!(detect_aggressor_bb(1, 0, 6, 6, 0, 6, 6, last, other), 0);
    // With a reply left for the other side, the last placer stays blamed.
    let other_with_reply = 1 << 1;
    assert_eq!(detect_aggressor_bb(1, 0, 6, 6, 0, 6, 6, last, other_with_reply), 1);
    // Two legal tiles before: not forced.
    let last_two = (1 << 7) | (1 << 26);
    assert_eq!(detect_aggressor_bb(1, 0, 6, 6, 0, 6, 6, last_two, other), 1);
}

#[test]
fn block_score_rewards_the_lighter_aggressor() {
    // AI placed last, holds (1,1) = 2 pips; human holds (6,6) = 12 pips.
    let ai = 1 << 7;
    let human = 1 << 27;
    assert_eq!(score_block_bb(ai, human, 1, 3, 3, -1, -1, 0, 0), 24);
    // Human placed last with the lighter hand.
    assert_eq!(score_block_bb(human, ai, 0, 3, 3, -1, -1, 0, 0), -24);
    // The aggressor holds more: it loses the pips of both hands.
    assert_eq!(score_block_bb(human, ai, 1, 3, 3, -1, -1, 0, 0), -14);
    assert_eq!(score_block_bb(ai, human, 0, 3, 3, -1, -1, 0, 0), 14);
    // Equal pips count for the aggressor.
    assert_eq!(score_block_bb(1 << 13, 1 << 9, 1, 0, 0, -1, -1, 0, 0), 8);
}

#[test]
fn block_score_applies_ghost13_over_both_hands() {
    let ai = 1;
    let human = 1 << 27;
    assert_eq!(score_block_bb(ai, human, 1, 3, 3, -1, -1, 0, 0), -25);
    assert_eq!(score_block_bb(ai, human | (1 << 2), 1, 3, 3, -1, -1, 0, 0), 28);
}

#[test]
fn forced_block_scores_twice_the_pips_of_the_other_side() {
    // Both hands hold tiles of suit 1 only; the ends show 6, absent from both.
    let ai = (1 << 7) | (1 << 8);
    let human = (1 << 9) | (1 << 10);
    let mut buf = domino_ai::movegen::MoveBuffer::new();
    assert_eq!(domino_ai::movegen::generate_moves(&mut buf, ai, 6, 6, 0), 0);
    assert_eq!(domino_ai::movegen::generate_moves(&mut buf, human, 6, 6, 0), 0);
    assert_eq!(domino_ai::movegen::count_moves_bb(ai, 6, 6), 0);
    assert_eq!(domino_ai::movegen::count_moves_bb(human, 6, 6), 0);
    assert_eq!(score_block_bb(ai, human, 1, 6, 6, -1, -1, 0, 0), 18);
    assert_eq!(score_block_bb(human, ai, 0, 6, 6, -1, -1, 0, 0), -18);
    assert_eq!(score_block_bb(ai, human, 0, 6, 6, -1, -1, 0, 0), 14);
}
