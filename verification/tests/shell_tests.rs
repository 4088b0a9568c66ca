use domino_ai::search::{Engine, SearchResult};
use domino_ai::shell::{
    answer_request, board_ends, build_analysis, build_response, find_legal_move,
    find_legal_move_by_tile, hand_from_tiles, history_is_valid, low_high, request_is_valid,
    search_arguments, seed_placements, select_legal_move, sort_analysis, tiles_are_valid,
    AnalysisEntry, ChosenMove, LegalMoveDesc, MatchScore, MoveHistoryEntry, SearchRequest,
    TileDesc, END_LEFT, END_RIGHT,
};

fn tile(low: i8, high: i8) -> TileDesc {
    TileDesc { low, high }
}

fn legal(tile_low: i8, tile_high: i8, end: u32) -> LegalMoveDesc {
    LegalMoveDesc { tile_low, tile_high, end }
}

fn placed(player_is_ai: bool, lo: i8, hi: i8, l: i8, r: i8) -> MoveHistoryEntry {
    MoveHistoryEntry {
        player_is_ai,
        pass: false,
        tile_low: lo,
        tile_high: hi,
        board_left: l,
        board_right: r,
    }
}

fn passed(player_is_ai: bool) -> MoveHistoryEntry {
    MoveHistoryEntry {
        player_is_ai,
        pass: true,
        tile_low: 0,
        tile_high: 0,
        board_left: 0,
        board_right: 0,
    }
}

fn chosen(c: ChosenMove) -> (bool, i8, i8, u32) {
    (c.has_tile, c.tile_low, c.tile_high, c.end)
}

fn entry(e: &AnalysisEntry) -> (i8, i8, u32, i32) {
    (e.tile_low, e.tile_high, e.end, e.score)
}

fn request(ai: Vec<TileDesc>, human: Vec<TileDesc>, left: i8, right: i8) -> SearchRequest {
    SearchRequest {
        ai_tiles: ai,
        human_tiles: human,
        board_empty: false,
        left: Some(left),
        right: Some(right),
        move_history: vec![],
        legal_moves: vec![],
        match_score: None,
        time_budget: 1000,
    }
}

#[test]
fn hands_are_masks_of_tile_indices() {
    assert_eq!(hand_from_tiles(&vec![]), 0);
    assert_eq!(hand_from_tiles(&vec![tile(0, 0), tile(6, 6)]), 1 | (1 << 27));
    // Either order of the two values, and a tile given twice.
    assert_eq!(hand_from_tiles(&vec![tile(6, 0), tile(0, 6), tile(3, 1)]), (1 << 6) | (1 << 9));
    assert_eq!(low_high(5, 2), (2, 5));
    assert!(tiles_are_valid(&vec![tile(0, 6), tile(6, 0)]));
    assert!(!tiles_are_valid(&vec![tile(0, 7)]));
    assert!(!tiles_are_valid(&vec![tile(-1, 3)]));
}

#[test]
fn placements_are_seeded_from_the_last_two_placements() {
    let none = seed_placements(&vec![]);
    assert_eq!((none.p1_who, none.p1_l, none.p1_r, none.p1_tile), (-1, 0, 0, -1));
    assert_eq!((none.p2_who, none.p2_l, none.p2_r), (-1, 0, 0));

    let history = vec![
        placed(true, 6, 6, 6, 6),
        placed(false, 6, 5, 5, 6),
        passed(true),
        placed(false, 3, 5, 3, 6),
        passed(true),
    ];
    let p = seed_placements(&history);
    assert_eq!((p.p1_who, p.p1_l, p.p1_r, p.p1_tile), (0, 3, 6, 20));
    assert_eq!((p.p2_who, p.p2_l, p.p2_r), (0, 5, 6));

    let one = seed_placements(&vec![passed(false), placed(true, 2, 1, 1, 2)]);
    assert_eq!((one.p1_who, one.p1_l, one.p1_r, one.p1_tile), (1, 1, 2, 8));
    assert_eq!((one.p2_who, one.p2_l, one.p2_r), (-1, 0, 0));

    let only_passes = seed_placements(&vec![passed(true), passed(false)]);
    assert_eq!(only_passes.p1_who, -1);
}

#[test]
fn the_history_is_read_by_its_last_placement() {
    assert!(history_is_valid(&vec![]));
    assert!(history_is_valid(&vec![placed(true, 9, 9, 0, 0), placed(false, 1, 2, 1, 2)]));
    assert!(!history_is_valid(&vec![placed(false, 1, 2, 1, 2), placed(true, 9, 9, 0, 0)]));
    assert!(!history_is_valid(&vec![placed(true, 7, 0, 0, 0), passed(false)]));
}

#[test]
fn legal_moves_are_found_by_tile_and_end() {
    let moves = vec![legal(6, 0, END_RIGHT), legal(0, 6, END_LEFT), legal(1, 1, 7)];
    assert_eq!(find_legal_move(&moves, 0, 6, END_LEFT), Some(1));
    assert_eq!(find_legal_move(&moves, 0, 6, END_RIGHT), Some(0));
    assert_eq!(find_legal_move(&moves, 1, 1, END_LEFT), None);
    assert_eq!(find_legal_move(&moves, 1, 1, 7), Some(2));
    assert_eq!(find_legal_move_by_tile(&moves, 0, 6), Some(0));
    assert_eq!(find_legal_move_by_tile(&moves, 1, 1), Some(2));
    assert_eq!(find_legal_move_by_tile(&moves, 6, 0), None);
    assert_eq!(find_legal_move_by_tile(&vec![], 0, 0), None);
}

#[test]
fn the_chosen_move_is_held_against_the_legal_moves() {
    let moves = vec![legal(1, 1, END_LEFT), legal(6, 0, END_RIGHT), legal(0, 6, END_LEFT)];
    // The chosen move is legal as it stands: tile 6 is (0,6).
    assert_eq!(chosen(select_legal_move(6, 0, &moves)), (true, 0, 6, END_LEFT));
    assert_eq!(chosen(select_legal_move(6, 1, &moves)), (true, 0, 6, END_RIGHT));
    // The tile is legal on another end only: that end is taken.
    assert_eq!(chosen(select_legal_move(7, 1, &moves)), (true, 1, 1, END_LEFT));
    // The tile is not legal: the first legal move.
    assert_eq!(chosen(select_legal_move(27, 0, &moves)), (true, 1, 1, END_LEFT));
    // No move was chosen: the first legal move.
    assert_eq!(chosen(select_legal_move(-1, -1, &moves)), (true, 1, 1, END_LEFT));
    // No legal move at all.
    assert_eq!(chosen(select_legal_move(-1, -1, &vec![])), (false, 0, 0, END_LEFT));
    assert_eq!(chosen(select_legal_move(6, 1, &vec![])), (false, 0, 0, END_LEFT));
}

#[test]
fn an_end_of_another_name_is_copied_from_the_legal_moves() {
    let moves = vec![legal(2, 3, 5), legal(0, 6, 9)];
    // No end was chosen: the end of the first legal move is wanted.
    assert_eq!(chosen(select_legal_move(6, -1, &moves)), (true, 0, 6, 9));
    assert_eq!(chosen(select_legal_move(-1, -1, &moves)), (true, 2, 3, 5));
    assert_eq!(chosen(select_legal_move(14, 0, &moves)), (true, 2, 3, 5));
}

#[test]
fn the_analysis_is_sorted_by_descending_score() {
    let mut entries: Vec<AnalysisEntry> = [(0, 1, 0, 5), (0, 2, 1, 9), (0, 3, 0, 5), (0, 4, 1, -2), (0, 5, 0, 9)]
        .iter()
        .map(|&(tile_low, tile_high, end, score)| AnalysisEntry { tile_low, tile_high, end, score })
        .collect();
    sort_analysis(&mut entries);
    let sorted: Vec<(i8, i8, u32, i32)> = entries.iter().map(entry).collect();
    // Entries of equal score keep their order.
    assert_eq!(
        sorted,
        vec![(0, 2, 1, 9), (0, 5, 0, 9), (0, 1, 0, 5), (0, 3, 0, 5), (0, 4, 1, -2)]
    );
    let mut empty: Vec<AnalysisEntry> = vec![];
    sort_analysis(&mut empty);
    assert!(empty.is_empty());
}

#[test]
fn the_analysis_names_tiles_by_their_values() {
    let analysis = build_analysis(&vec![(1, 0, -3), (27, 1, 12), (12, 0, 4)]);
    let entries: Vec<(i8, i8, u32, i32)> = analysis.iter().map(entry).collect();
    assert_eq!(
        entries,
        vec![(6, 6, END_RIGHT, 12), (1, 6, END_LEFT, 4), (0, 1, END_LEFT, -3)]
    );
}

#[test]
fn the_response_carries_the_counts_of_the_search() {
    let result = SearchResult {
        best_tile_idx: 1,
        best_end: 0,
        best_score: 12,
        depth: 3,
        nodes: 44,
        analysis: vec![(1, 0, 12), (7, 1, -4)],
        tt_probes: 9,
        tt_hits: 5,
        tt_cutoffs: 2,
        tt_hints: 3,
    };
    let response = build_response(&result, &vec![legal(1, 0, END_LEFT)]);
    assert_eq!(chosen(response.chosen), (true, 0, 1, END_LEFT));
    assert_eq!((response.best_score, response.depth, response.nodes), (12, 3, 44));
    assert_eq!(
        (response.tt_probes, response.tt_hits, response.tt_cutoffs, response.tt_hints),
        (9, 5, 2, 3)
    );
    assert_eq!(response.analysis.len(), 2);
    assert_eq!(entry(&response.analysis[1]), (1, 1, END_RIGHT, -4));
}

#[test]
fn board_ends_default_to_the_empty_board() {
    assert_eq!(board_ends(true, Some(3), Some(4)), (7, 7));
    assert_eq!(board_ends(false, Some(3), Some(4)), (3, 4));
    assert_eq!(board_ends(false, None, Some(4)), (7, 4));
    assert_eq!(board_ends(false, None, None), (7, 7));
}

#[test]
fn requests_out_of_range_are_told_apart() {
    let good = request(vec![tile(0, 1)], vec![tile(6, 6)], 0, 3);
    assert!(request_is_valid(&good));

    let bad_tile = request(vec![tile(0, 8)], vec![tile(6, 6)], 0, 3);
    assert!(!request_is_valid(&bad_tile));

    let bad_end = request(vec![tile(0, 1)], vec![tile(6, 6)], 3, 7);
    assert!(!request_is_valid(&bad_end));

    let mut half_empty = request(vec![tile(0, 1)], vec![tile(6, 6)], 0, 3);
    half_empty.left = None;
    assert!(request_is_valid(&half_empty));

    let mut bad_history = request(vec![tile(0, 1)], vec![tile(6, 6)], 0, 3);
    bad_history.move_history = vec![placed(false, 0, 3, 0, 9)];
    assert!(!request_is_valid(&bad_history));
    bad_history.move_history = vec![placed(false, 0, 9, 0, 3)];
    assert!(!request_is_valid(&bad_history));
    bad_history.move_history = vec![placed(true, 0, 3, 8, 8), placed(false, 0, 3, 0, 3)];
    assert!(!request_is_valid(&bad_history));
    bad_history.move_history = vec![placed(true, 9, 9, 0, 0), placed(true, 0, 3, 3, 3), placed(false, 0, 3, 0, 3)];
    assert!(request_is_valid(&bad_history));

    let mut wide_lead = request(vec![tile(0, 1)], vec![tile(6, 6)], 0, 3);
    wide_lead.match_score = Some(MatchScore { ai: i32::MAX, human: -1 });
    assert!(!request_is_valid(&wide_lead));
    wide_lead.match_score = Some(MatchScore { ai: i32::MAX, human: 0 });
    assert!(request_is_valid(&wide_lead));
}

#[test]
fn search_arguments_follow_the_request() {
    let mut req = request(vec![tile(1, 0), tile(1, 1)], vec![tile(6, 6)], 0, 3);
    req.match_score = Some(MatchScore { ai: 120, human: 45 });
    req.move_history = vec![placed(true, 0, 3, 0, 3)];
    let args = search_arguments(&req);
    assert_eq!((args.ai_hand, args.human_hand), ((1 << 1) | (1 << 7), 1 << 27));
    assert_eq!((args.left, args.right, args.match_diff), (0, 3, 75));
    assert_eq!(args.placements.p1_tile, 3);
    let mut empty = request(vec![], vec![], 0, 0);
    empty.board_empty = true;
    let none = search_arguments(&empty);
    assert_eq!((none.ai_hand, none.left, none.right, none.match_diff), (0, 7, 7, 0));
}

#[test]
fn a_request_is_answered_with_a_legal_move() {
    let mut engine = Engine::new();
    let mut req = request(vec![tile(0, 1)], vec![tile(6, 6)], 0, 3);
    req.legal_moves = vec![legal(0, 1, END_LEFT)];
    let response = answer_request(&mut engine, &req);
    assert_eq!(chosen(response.chosen), (true, 0, 1, END_LEFT));
    assert_eq!(response.best_score, 12);
    assert!(response.depth >= 1);
    let analysis: Vec<(i8, i8, u32, i32)> = response.analysis.iter().map(entry).collect();
    assert_eq!(analysis, vec![(0, 1, END_LEFT, 12)]);
}

#[test]
fn a_request_without_legal_moves_is_answered_without_a_tile() {
    let mut engine = Engine::new();
    let mut req = request(vec![tile(1, 1)], vec![tile(6, 6)], 6, 6);
    req.time_budget = 20;
    let response = answer_request(&mut engine, &req);
    assert_eq!(chosen(response.chosen), (false, 0, 0, END_LEFT));
    assert_eq!((response.best_score, response.depth, response.nodes), (0, 0, 0));
    assert!(response.analysis.is_empty());
}

#[test]
fn a_move_that_the_caller_does_not_allow_gives_way_to_the_first_legal_move() {
    let mut engine = Engine::new();
    let mut req = request(vec![tile(0, 1)], vec![tile(6, 6)], 0, 3);
    req.legal_moves = vec![legal(5, 5, END_RIGHT), legal(2, 2, END_LEFT)];
    let response = answer_request(&mut engine, &req);
    assert_eq!(chosen(response.chosen), (true, 5, 5, END_RIGHT));
}
