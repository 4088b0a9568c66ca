use domino_ai::lookup::{popcount, tile_id_to_index};
use domino_ai::movegen::{compute_new_ends, generate_moves, MoveBuffer};
use domino_ai::position::Position;
use domino_ai::search::{
    adaptive_budget, begin_search, choose_move, elapsed_since, finish_search, out_of_time,
    run_iteration, time_to_stop, Engine,
};

#[test]
fn test_choose_move_simple() {
    let ai_hand = (1 << 0) | (1 << 1);
    let human_hand = (1 << 26) | (1 << 27);
    let mut engine = Engine::new();

    let result = choose_move(
        &mut engine, ai_hand, human_hand, 0, 6, 0, 0, -1, 0, 0, -1, -1, 0, 0, 1000,
    );

    assert!(result.best_tile_idx >= 0);
    assert!(result.depth >= 1);
    assert!(result.nodes > 0);
}

#[test]
fn test_tt_effectiveness_opening() {
    let ai_tiles: Vec<(i8, i8)> = vec![
        (4, 6), (0, 5), (0, 0), (6, 6), (4, 5), (0, 2), (1, 3), (5, 5), (2, 6), (1, 4), (0, 4),
        (3, 4), (2, 3), (2, 5),
    ];
    let human_tiles: Vec<(i8, i8)> = vec![
        (0, 1), (0, 3), (0, 6), (1, 1), (1, 2), (1, 5), (1, 6), (2, 2), (2, 4), (3, 3), (3, 5),
        (3, 6), (4, 4), (5, 6),
    ];

    let mut ai_hand: i32 = 0;
    for &(lo, hi) in &ai_tiles {
        ai_hand |= 1 << tile_id_to_index(lo, hi);
    }
    let mut human_hand: i32 = 0;
    for &(lo, hi) in &human_tiles {
        human_hand |= 1 << tile_id_to_index(lo, hi);
    }
    println!("AI hand: 0x{:08X} (popcount={})", ai_hand, popcount(ai_hand));
    println!("Human hand: 0x{:08X} (popcount={})", human_hand, popcount(human_hand));

    let mut engine = Engine::new();
    let result = choose_move(
        &mut engine, ai_hand, human_hand, 7, 7, 0, 0, -1, 0, 0, -1, -1, 0, 0, 5000,
    );
    println!("Depth: {}", result.depth);
    println!("Nodes: {}", result.nodes);
    println!("Best score: {}", result.best_score);
    println!("TT probes: {}", result.tt_probes);
    println!("TT hits: {}", result.tt_hits);
    println!("TT cutoffs: {}", result.tt_cutoffs);
    println!("TT hints: {}", result.tt_hints);

    assert!(result.depth >= 1, "Should reach at least depth 1");
    assert!(result.tt_probes > 0, "Should have TT probes");
}

#[test]
fn test_choose_move_domino_win() {
    let ai_hand = 1 << 1;
    let human_hand = 1 << 27;
    let mut engine = Engine::new();

    let result = choose_move(
        &mut engine, ai_hand, human_hand, 0, 3, 0, 0, -1, 0, 0, -1, -1, 0, 0, 1000,
    );

    assert_eq!(result.best_tile_idx, 1);
    assert_eq!(result.best_end, 0);
    assert!(result.best_score > 0);
}

#[test]
fn domino_in_one_scores_the_pips_of_the_loser() {
    let mut engine = Engine::new();
    let result = choose_move(&mut engine, 1 << 1, 1 << 27, 0, 3, 0, 0, -1, 0, 0, -1, -1, 0, 0, 1000);
    assert_eq!((result.best_tile_idx, result.best_end), (1, 0));
    assert_eq!(result.best_score, 12);
    assert!(result.depth >= 1);
    assert_eq!(result.analysis, vec![(1, 0, 12)]);
    assert_eq!(result.nodes, 0);
}

#[test]
fn the_chosen_move_is_legal_and_wins() {
    // Engine: (0,0),(0,1); opponent: (5,6),(6,6); ends 0 and 6.
    let ai = (1 << 0) | (1 << 1);
    let human = (1 << 26) | (1 << 27);
    let mut engine = Engine::new();
    let result = choose_move(&mut engine, ai, human, 0, 6, 0, 0, -1, 0, 0, -1, -1, 0, 0, 1000);
    let mut buf = MoveBuffer::new();
    let n = generate_moves(&mut buf, ai, 0, 6, 0);
    let legal: Vec<(i8, i8)> = (0..n).map(|i| (buf.tile_at(0, i), buf.end_at(0, i))).collect();
    assert_eq!(legal, vec![(0, 0), (1, 0)]);
    assert!(legal.contains(&(result.best_tile_idx, result.best_end)));
    assert!(result.best_score > 0);
    assert_eq!(result.depth, 4);
    let mut analysed: Vec<(i8, i8)> = result.analysis.iter().map(|m| (m.0, m.1)).collect();
    analysed.sort();
    assert_eq!(analysed, legal);
    let top = result.analysis.iter().map(|m| m.2).max().unwrap();
    assert_eq!(top, result.best_score);
}

#[test]
fn no_legal_move_gives_no_move() {
    // The engine holds (1,1) against the ends 6 and 6.
    let mut engine = Engine::new();
    let result = choose_move(&mut engine, 1 << 7, 1 << 27, 6, 6, 0, 0, 0, 6, 6, 26, 1, 5, 6, 50);
    assert_eq!(result.best_tile_idx, -1);
    assert_eq!(result.best_end, -1);
    assert_eq!(result.best_score, 0);
    assert_eq!(result.depth, 0);
    assert_eq!(result.nodes, 0);
    assert!(result.analysis.is_empty());
    assert_eq!(result.tt_probes, 0);
}

#[test]
fn an_empty_hand_gives_no_move() {
    let mut engine = Engine::new();
    let result = choose_move(&mut engine, 0, 1 << 27, 7, 7, 0, 0, -1, 0, 0, -1, -1, 0, 0, 50);
    assert_eq!(result.best_tile_idx, -1);
    assert_eq!(result.depth, 0);
}

#[test]
fn the_opening_search_picks_a_tile_of_the_hand() {
    // (6,6) and thirteen other tiles against fourteen tiles, empty board.
    let ai = 0x0800_0000 | 0x1555;
    let ai = ai | (1 << 13) | (1 << 15) | (1 << 17) | (1 << 19) | (1 << 21) | (1 << 23);
    assert_eq!(popcount(ai), 14);
    let human = 0x0fff_ffff & !ai;
    assert_eq!(popcount(human), 14);
    let mut engine = Engine::new();
    let result = choose_move(&mut engine, ai, human, 7, 7, 0, 0, -1, 0, 0, -1, -1, 0, 0, 300);
    assert!(result.best_tile_idx >= 0);
    assert_ne!(ai & (1 << result.best_tile_idx), 0);
    assert_eq!(result.best_end, 0);
    assert!(!result.analysis.is_empty());
    assert_eq!(result.analysis.len(), 14);
    assert!(result.tt_probes > 0);
    assert!(result.tt_hits <= result.tt_probes);
}

#[test]
fn a_balanced_position_scores_near_zero() {
    // Both sides hold three tiles of 12 pips in all; ends 1 and 2.
    let ai = (1 << 8) | (1 << 9) | (1 << 15);
    let human = (1 << 10) | (1 << 14) | (1 << 7);
    let mut engine = Engine::new();
    let result = choose_move(&mut engine, ai, human, 1, 2, 0, 0, -1, 0, 0, -1, -1, 0, 0, 1000);
    assert!(result.best_tile_idx >= 0);
    assert!(result.best_score.abs() <= 50);
}

#[test]
fn a_second_search_of_the_same_position_agrees() {
    let ai = (1 << 8) | (1 << 9) | (1 << 15) | (1 << 3);
    let human = (1 << 10) | (1 << 14) | (1 << 7) | (1 << 20);
    let mut engine = Engine::new();
    let first = choose_move(&mut engine, ai, human, 1, 2, 0, 0, -1, 0, 0, -1, -1, 0, 0, 5000);
    let second = choose_move(&mut engine, ai, human, 1, 2, 0, 0, -1, 0, 0, -1, -1, 0, 0, 5000);
    assert_eq!(first.best_tile_idx, second.best_tile_idx);
    assert_eq!(first.best_end, second.best_end);
    assert_eq!(first.best_score, second.best_score);
    assert_eq!(first.depth, second.depth);
    assert_eq!(first.depth, 8);
}

#[test]
fn a_forced_block_is_scored_by_the_block_rule() {
    // The engine's only move, (1,6) on the left, leaves the ends (1,5),
    // which neither side can answer: it holds (3,3), the opponent (4,4).
    let ai = (1 << 12) | (1 << 18);
    let human = 1 << 22;
    let mut engine = Engine::new();
    let result = choose_move(&mut engine, ai, human, 6, 5, 0, 0, -1, 0, 0, -1, -1, 0, 0, 1000);
    assert_eq!((result.best_tile_idx, result.best_end), (12, 0));
    // The engine blocks with 6 pips against 8: twice the opponent's pips.
    assert_eq!(result.best_score, 16);
    assert_eq!(result.analysis, vec![(12, 0, 16)]);
    assert_eq!(
        result.best_score,
        domino_ai::scoring::score_block_bb(1 << 18, human, 1, 1, 5, 12, -1, 0, 0)
    );
}

#[test]
fn the_match_standing_changes_the_search() {
    let ai = 0x0800_0000 | 0x1555;
    let ai = ai | (1 << 13) | (1 << 15) | (1 << 17) | (1 << 19) | (1 << 21) | (1 << 23);
    let human = 0x0fff_ffff & !ai;
    let mut leading = Engine::new();
    let mut ahead = begin_search(&mut leading, ai, human, 7, 7, 0, 100, -1, 0, 0, -1, -1, 0, 0, 0);
    let first_ahead = run_iteration(&mut leading, &mut ahead);
    let mut trailing = Engine::new();
    let mut behind = begin_search(&mut trailing, ai, human, 7, 7, 0, -100, -1, 0, 0, -1, -1, 0, 0, 0);
    let first_behind = run_iteration(&mut trailing, &mut behind);
    assert!(first_ahead.complete && first_behind.complete);
    let ahead = finish_search(&leading, ahead);
    let behind = finish_search(&trailing, behind);
    assert_eq!((ahead.depth, behind.depth), (1, 1));
    assert_eq!(ahead.analysis.len(), 14);
    assert_ne!(ahead.analysis, behind.analysis);
}

#[test]
fn new_ends_follow_the_tile() {
    assert_eq!(compute_new_ends(12, 0, 7, 7), (1, 6));
    assert_eq!(compute_new_ends(12, 0, 6, 3), (1, 3));
    assert_eq!(compute_new_ends(12, 1, 3, 1), (3, 6));
    assert_eq!(compute_new_ends(12, 0, 3, 1), (-1, 1));
    assert_eq!(compute_new_ends(7, 1, 3, 1), (3, 1));
}

#[test]
fn make_move_updates_the_whole_position() {
    let mut pos = Position {
        ai_hand: (1 << 1) | (1 << 7),
        human_hand: 1 << 27,
        left: 0,
        right: 3,
        hash: domino_ai::zobrist::compute_root_hash((1 << 1) | (1 << 7), 1 << 27, 0, 3, true, 0),
        ply: 0,
        cons_pass: 0,
        match_diff: 5,
        p1_who: 0,
        p1_l: 0,
        p1_r: 3,
        p1_tile: 3,
        p2_who: -1,
        p2_l: 0,
        p2_r: 0,
    };
    pos.make_move(true, 1, 0);
    assert_eq!((pos.ai_hand, pos.human_hand), (1 << 7, 1 << 27));
    assert_eq!((pos.left, pos.right, pos.ply, pos.cons_pass), (1, 3, 1, 0));
    assert_eq!((pos.p1_who, pos.p1_l, pos.p1_r, pos.p1_tile), (1, 1, 3, 1));
    assert_eq!((pos.p2_who, pos.p2_l, pos.p2_r), (0, 0, 3));
    assert_eq!(
        pos.hash,
        domino_ai::zobrist::compute_root_hash(1 << 7, 1 << 27, 1, 3, false, 0)
    );
    assert_eq!(pos.terminal_after_move(true), None);
    pos.make_move(false, 27, 0);
    assert_eq!(pos.left, -1);
}

#[test]
fn the_time_budget_adapts_to_the_tiles_left() {
    assert_eq!(adaptive_budget(28, 5000), 100000);
    assert_eq!(adaptive_budget(24, 1000), 20000);
    assert_eq!(adaptive_budget(23, 1000), 12000);
    assert_eq!(adaptive_budget(18, 1000), 12000);
    assert_eq!(adaptive_budget(17, 3000), 30000);
    assert_eq!(adaptive_budget(12, 3000), 30000);
    assert_eq!(adaptive_budget(11, 3000), 10000);
    assert_eq!(adaptive_budget(11, 400), 4000);
    assert_eq!(adaptive_budget(2, 0), 10000);
    assert_eq!(adaptive_budget(28, 0), 100000);
    assert_eq!(adaptive_budget(28, u64::MAX), 20 * (u64::MAX as u128));
}

#[test]
fn the_search_stops_after_three_quarters_of_the_budget() {
    assert!(!out_of_time(750, 10000));
    assert!(out_of_time(751, 10000));
    assert!(!out_of_time(0, 10));
    assert!(out_of_time(1, 10));
    assert!(!out_of_time(900, 12000));
    assert!(out_of_time(901, 12000));
    assert_eq!(elapsed_since(100, 350), 250);
    assert_eq!(elapsed_since(350, 100), 0);
}

#[test]
fn iterations_report_a_move_exactly_when_there_is_one() {
    let ai = (1 << 0) | (1 << 1);
    let human = (1 << 26) | (1 << 27);
    let mut engine = Engine::new();
    let mut run = begin_search(&mut engine, ai, human, 0, 6, 0, 0, -1, 0, 0, -1, -1, 0, 0, 1000);
    assert!(run.is_open());
    assert!(!time_to_stop(&run, 750));
    assert!(time_to_stop(&run, 751));
    let mut depths = vec![];
    while run.is_open() {
        let report = run_iteration(&mut engine, &mut run);
        assert!(report.best_tile_idx == 0 || report.best_tile_idx == 1);
        assert_eq!(report.best_end, 0);
        assert!(report.complete);
        assert!(report.nodes < 20_000_000);
        depths.push(report.depth);
    }
    // Four tiles are left: the fourth iteration solves the game.
    assert_eq!(depths, vec![1, 2, 3, 4]);
    let result = finish_search(&engine, run);
    assert_eq!(result.depth, 4);
    assert!(result.best_tile_idx >= 0);

    let mut blocked = begin_search(&mut engine, 1 << 7, human, 6, 6, 0, 0, -1, 0, 0, -1, -1, 0, 0, 0);
    assert!(!time_to_stop(&blocked, 750));
    assert!(time_to_stop(&blocked, 751));
    let report = run_iteration(&mut engine, &mut blocked);
    assert_eq!((report.best_tile_idx, report.best_end, report.best_score), (-1, -1, -100000));
    assert!(report.complete);
    assert_eq!(report.depth, 1);
    let nothing = finish_search(&engine, blocked);
    assert_eq!((nothing.best_tile_idx, nothing.depth), (-1, 0));
}

#[test]
fn a_pass_changes_the_side_and_the_pass_counter() {
    let ai = 1 << 7;
    let human = 1 << 27;
    let mut pos = Position {
        ai_hand: ai,
        human_hand: human,
        left: 1,
        right: 3,
        hash: domino_ai::zobrist::compute_root_hash(ai, human, 1, 3, false, 0),
        ply: 4,
        cons_pass: 0,
        match_diff: 0,
        p1_who: 1,
        p1_l: 1,
        p1_r: 3,
        p1_tile: 1,
        p2_who: -1,
        p2_l: 0,
        p2_r: 0,
    };
    pos.make_pass(false);
    assert_eq!((pos.cons_pass, pos.ply, pos.left, pos.right), (1, 4, 1, 3));
    assert_eq!((pos.ai_hand, pos.human_hand), (ai, human));
    assert_eq!(pos.hash, domino_ai::zobrist::compute_root_hash(ai, human, 1, 3, true, 1));
}

#[test]
fn a_placement_that_ends_the_game_is_scored_at_once() {
    // The engine places its last tile: a domino, 12 pips to the opponent.
    let mut pos = Position {
        ai_hand: 1 << 1,
        human_hand: 1 << 27,
        left: 0,
        right: 3,
        hash: 0,
        ply: 0,
        cons_pass: 0,
        match_diff: 0,
        p1_who: -1,
        p1_l: 0,
        p1_r: 0,
        p1_tile: -1,
        p2_who: -1,
        p2_l: 0,
        p2_r: 0,
    };
    pos.make_move(true, 1, 0);
    assert_eq!(pos.terminal_after_move(true), Some(12));
    // The opponent places (1,6) of two tiles and blocks the board at (1,5)...
    let mut blocked = Position {
        ai_hand: 1 << 22,
        human_hand: (1 << 12) | (1 << 18),
        left: 6,
        right: 5,
        hash: 0,
        ply: 0,
        cons_pass: 0,
        match_diff: 0,
        p1_who: -1,
        p1_l: 0,
        p1_r: 0,
        p1_tile: -1,
        p2_who: -1,
        p2_l: 0,
        p2_r: 0,
    };
    blocked.make_move(false, 12, 0);
    // ... holding 6 pips against 8: twice the engine's pips, to the opponent.
    assert_eq!(blocked.terminal_after_move(false), Some(-16));
}
