use domino_ai::eval::{evaluate_bb, to_points};

fn eval_points(ai: i32, human: i32, left: i8, right: i8, match_diff: i32) -> f64 {
    evaluate_bb(ai, human, left, right, match_diff) as f64 / 100.0
}

#[test]
fn test_eval_symmetric_start() {
    let hand_a = 0b0000000_0000000_0000011_1111111;
    let hand_b = 0b1111111_1111111_1111100_0000000;
    let score = eval_points(hand_a, hand_b, 7, 7, 0);
    assert!(score.is_finite());
}

#[test]
fn test_eval_ai_advantage() {
    let ai = 1 << 0;
    let human = (1 << 1) | (1 << 2) | (1 << 3) | (1 << 27);
    let score = eval_points(ai, human, 0, 0, 0);
    assert!(score > 0.0, "AI with fewer tiles should have positive eval");
}

#[test]
fn test_eval_match_diff_effect() {
    let ai = 0b111;
    let human = 0b111000;
    let s_neutral = eval_points(ai, human, 0, 1, 0);
    let s_leading = eval_points(ai, human, 0, 1, 100);
    let s_trailing = eval_points(ai, human, 0, 1, -100);
    assert!(s_neutral.is_finite());
    assert!(s_leading.is_finite());
    assert!(s_trailing.is_finite());
    assert_ne!(s_leading as i64, s_trailing as i64);
}

#[test]
fn evaluation_adds_its_seven_terms() {
    // Engine: (0,0),(0,1),(0,2); opponent: (0,3),(0,4),(0,5); ends 0 and 1.
    // pips: (12 - 3) * 2 = 18; mobility: (3 - 3) * 4 = 0; tiles: 0;
    // suit: (3 + 1 - 3 - 0) * 3 + 8 = 11; ghost: 0; doubles: -3.
    // Six tiles left: weights 1.5, 0.6, 1.5, 1.0.
    let ai = 0b111;
    let human = 0b111000;
    assert_eq!(evaluate_bb(ai, human, 0, 1, 0), 2700 + 0 + 0 + 1650 + 0 - 300);
    // In the lead: pips * 1.4, suit * 0.6.
    assert_eq!(evaluate_bb(ai, human, 0, 1, 50), 3780 + 990 - 300);
    // Behind: pips * 0.7, suit * 1.5, mobility * 1.3.
    assert_eq!(evaluate_bb(ai, human, 0, 1, -50), 1890 + 2475 - 300);
    assert_eq!(evaluate_bb(ai, human, 0, 1, 49), evaluate_bb(ai, human, 0, 1, -49));
}

#[test]
fn evaluation_of_the_opening_uses_the_opening_weights() {
    // Ten tiles each on the empty board: 20 tiles left.
    let ai = 0x3ff;
    let human = 0x3ff << 10;
    // ai pips: 0+1+2+3+4+5+6+2+3+4 = 30; human pips: 5+6+7+4+5+6+7+8+6+7 = 61.
    // pips: 31 * 2 * 0.7 = 43.4; mobility 0; tiles 0; suit 0; ghost 0;
    // doubles: human (2,2),(3,3): 9 + 12 = 21; ai (0,0),(1,1): 3 + 6 = 9; 12 * 1.3 = 15.6.
    assert_eq!(evaluate_bb(ai, human, 7, 7, 0), 4340 + 1560);
}

#[test]
fn evaluation_counts_the_ghost_tile_and_the_lock_in() {
    // Engine: (6,6); opponent: (0,0); ends 6 and 6; two tiles left.
    // pips: (13 - 12) * 2 * 1.5 = 3; mobility: (1 - 0) * 4 * 0.6 = 2.4; tiles 0;
    // suit: ((1 - 0) * 6 + 31) * 1.5 = 55.5; ghost +10; doubles (3 - 21) * 1.0 = -18.
    assert_eq!(evaluate_bb(1 << 27, 1, 6, 6, 0), 300 + 240 + 5550 + 1000 - 1800);
    // The hands exchanged: every term but the lock-in changes its sign.
    // pips -3; mobility -2.4; suit (-6) * 1.5 = -9; ghost -10; doubles +18.
    assert_eq!(evaluate_bb(1, 1 << 27, 6, 6, 0), -300 - 240 - 900 - 1000 + 1800);
}

#[test]
fn exchanging_the_hands_negates_the_evaluation_without_lock_in() {
    let a = (1 << 1) | (1 << 8) | (1 << 20) | (1 << 27);
    let b = (1 << 2) | (1 << 9) | (1 << 13) | (1 << 14);
    for d in [-49, -10, 0, 10, 49] {
        assert_eq!(evaluate_bb(a, b, 1, 2, d), -evaluate_bb(b, a, 1, 2, -d));
        assert_eq!(evaluate_bb(a, b, 7, 7, d), -evaluate_bb(b, a, 7, 7, -d));
    }
    assert_ne!(evaluate_bb(a, b, 1, 2, 50), -evaluate_bb(b, a, 1, 2, -50));
}

#[test]
fn whole_points_cut_towards_zero() {
    assert_eq!(to_points(4050), 40);
    assert_eq!(to_points(-4050), -40);
    assert_eq!(to_points(99), 0);
    assert_eq!(to_points(-99), 0);
    assert_eq!(to_points(-100), -1);
    assert_eq!(to_points(0), 0);
}
