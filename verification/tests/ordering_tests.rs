use domino_ai::movegen::{generate_moves, MoveBuffer};
use domino_ai::ordering::{
    clear_move_ordering_data, order_moves_at_ply, record_history, record_killer, OrderingTables,
    MAX_DEPTH_SLOTS,
};

fn ordered(
    tables: &OrderingTables,
    is_ai: bool,
    depth: i32,
    ai: i32,
    human: i32,
    left: i8,
    right: i8,
) -> Vec<(i8, i8, i32)> {
    let mut buf = MoveBuffer::new();
    let hand = if is_ai { ai } else { human };
    let n = generate_moves(&mut buf, hand, left, right, 2);
    order_moves_at_ply(&mut buf, tables, 2, n, is_ai, depth, ai, human, left, right);
    (0..n).map(|i| (buf.tile_at(2, i), buf.end_at(2, i), buf.score[2 * 28 + i])).collect()
}

#[test]
fn test_clear_ordering() {
    let mut tables = OrderingTables::new();
    clear_move_ordering_data(&mut tables);
    for k in 0..MAX_DEPTH_SLOTS * 2 {
        assert_eq!(tables.killer_tile[k], -1);
        assert_eq!(tables.killer_end[k], -2);
    }
    for h in 0..28 {
        assert_eq!(tables.history[3 * h..3 * h + 3], [0, 0, 0]);
    }
}

#[test]
fn test_record_killer_two_slots() {
    let mut tables = OrderingTables::new();
    clear_move_ordering_data(&mut tables);
    record_killer(&mut tables, 3, 5, 0);
    assert_eq!(tables.killer_tile[6], 5);
    assert_eq!(tables.killer_end[6], 0);
    record_killer(&mut tables, 3, 10, 1);
    assert_eq!(tables.killer_tile[6], 10);
    assert_eq!(tables.killer_end[6], 1);
    assert_eq!(tables.killer_tile[7], 5);
    assert_eq!(tables.killer_end[7], 0);
}

#[test]
fn test_history_cap() {
    let mut tables = OrderingTables::new();
    clear_move_ordering_data(&mut tables);
    for _ in 0..200 {
        record_history(&mut tables, 0, 0, 100);
    }
    assert!(tables.history[1] <= 10000);
}

#[test]
fn the_same_killer_twice_leaves_the_second_slot_empty() {
    let mut tables = OrderingTables::new();
    record_killer(&mut tables, 7, 12, 1);
    record_killer(&mut tables, 7, 12, 1);
    assert_eq!(tables.killer_at(7, 0), (12, 1));
    assert_eq!(tables.killer_at(7, 1), (-1, -2));
    // The same tile on the other end is another move.
    record_killer(&mut tables, 7, 12, 0);
    assert_eq!(tables.killer_at(7, 0), (12, 0));
    assert_eq!(tables.killer_at(7, 1), (12, 1));
}

#[test]
fn killers_outside_the_depth_slots_are_dropped() {
    let mut tables = OrderingTables::new();
    record_killer(&mut tables, -1, 3, 0);
    record_killer(&mut tables, 64, 3, 0);
    for k in 0..MAX_DEPTH_SLOTS * 2 {
        assert_eq!(tables.killer_tile[k], -1);
    }
    record_killer(&mut tables, 63, 3, 0);
    assert_eq!(tables.killer_at(63, 0), (3, 0));
}

#[test]
fn history_adds_the_square_of_the_depth() {
    let mut tables = OrderingTables::new();
    record_history(&mut tables, 4, 1, 7);
    assert_eq!(tables.history_at(4, 1), 49);
    record_history(&mut tables, 4, 1, -3);
    assert_eq!(tables.history_at(4, 1), 58);
    assert_eq!(tables.history_at(4, 0), 0);
    record_history(&mut tables, 4, 1, 99);
    assert_eq!(tables.history_at(4, 1), 9859);
    record_history(&mut tables, 4, 1, 12);
    assert_eq!(tables.history_at(4, 1), 10000);
    record_history(&mut tables, 27, -1, i32::MIN);
    assert_eq!(tables.history_at(27, -1), 10000);
}

#[test]
fn ordering_scores_add_the_bonuses() {
    // Engine: (0,1),(1,1),(1,6); opponent: (6,6),(2,2); ends 0 and 1.
    let ai = (1 << 1) | (1 << 7) | (1 << 12);
    let human = (1 << 27) | (1 << 13);
    let tables = OrderingTables::new();
    let moves = ordered(&tables, true, 1, ai, human, 0, 1);
    // In half points: (1,6) on the right leaves ends (0,6), which the
    // opponent can answer: 3 * 7 = 21. (1,1) on the right: double 24, pips 6,
    // no reply against (0,1): 50. (0,1) left leaves (1,1): 3 + 50;
    // (0,1) right leaves (0,0): 3 + 50.
    assert_eq!(moves, vec![(7, 1, 80), (1, 0, 53), (1, 1, 53), (12, 1, 21)]);
}

#[test]
fn killers_and_history_lead_the_ordering() {
    let ai = (1 << 1) | (1 << 7) | (1 << 12);
    let human = (1 << 27) | (1 << 13);
    let mut tables = OrderingTables::new();
    record_killer(&mut tables, 4, 12, 1);
    record_killer(&mut tables, 4, 1, 1);
    record_history(&mut tables, 7, 1, 10);
    let moves = ordered(&tables, true, 4, ai, human, 0, 1);
    assert_eq!(
        moves,
        vec![(1, 1, 10053), (12, 1, 9021), (7, 1, 280), (1, 0, 53)]
    );
    // At another depth the killers do not count.
    let other = ordered(&tables, true, 5, ai, human, 0, 1);
    assert_eq!(other[0], (7, 1, 280));
}

#[test]
fn the_last_tile_and_the_ghost_bonus_count() {
    let tables = OrderingTables::new();
    // The engine's last tile, (0,1): two moves against the ends 0 and 1.
    let mut buf = MoveBuffer::new();
    let ai = 1 << 1;
    let human = 1 | (1 << 27);
    let n = generate_moves(&mut buf, ai, 0, 1, 0);
    assert_eq!(n, 2);
    order_moves_at_ply(&mut buf, &tables, 0, n, true, 1, ai, human, 0, 1);
    // Domino 2000, pips 3, ghost 30: the opponent holds (0,0) and the move
    // takes the last other tile of the zero suit away. On the left the ends
    // become (1,1), which the opponent cannot answer: 50 more.
    assert_eq!(buf.score[0], 2083);
    assert_eq!((buf.tile_at(0, 0), buf.end_at(0, 0)), (1, 0));
    assert_eq!(buf.score[1], 2033);
    // The same moves made by the opponent's side earn no ghost bonus.
    let mut other = MoveBuffer::new();
    let m = generate_moves(&mut other, ai, 0, 1, 0);
    order_moves_at_ply(&mut other, &tables, 0, m, false, 1, human, ai, 0, 1);
    assert_eq!(other.score[0], 2053);
}

#[test]
fn a_single_move_is_left_unscored() {
    let tables = OrderingTables::new();
    let mut buf = MoveBuffer::new();
    let n = generate_moves(&mut buf, 1 << 27, 6, 6, 1);
    assert_eq!(n, 1);
    order_moves_at_ply(&mut buf, &tables, 1, n, true, 1, 1 << 27, 1, 6, 6);
    assert_eq!(buf.score[28], 0);
    assert_eq!(buf.tile_at(1, 0), 27);
}
