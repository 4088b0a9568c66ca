use domino_ai::lookup::{popcount, SUIT_MASK};
use domino_ai::movegen::{count_moves_bb, generate_moves, MoveBuffer};

fn moves_of(hand: i32, left: i8, right: i8, ply: usize) -> Vec<(i8, i8)> {
    let mut buf = MoveBuffer::new();
    let n = generate_moves(&mut buf, hand, left, right, ply);
    (0..n).map(|i| (buf.tile_at(ply, i), buf.end_at(ply, i))).collect()
}

#[test]
fn test_generate_moves_empty_board() {
    let mut buf = MoveBuffer::new();
    let hand = 0b111;
    let n = generate_moves(&mut buf, hand, 7, 7, 0);
    assert_eq!(n, 3);
}

#[test]
fn test_generate_moves_matching() {
    let mut buf = MoveBuffer::new();
    let hand = (1 << 0) | (1 << 1) | (1 << 7);
    let n = generate_moves(&mut buf, hand, 0, 1, 0);
    assert!(n >= 3);
}

#[test]
fn test_count_moves_empty_board() {
    let hand = 0b1111;
    assert_eq!(count_moves_bb(hand, 7, 7), 4);
}

#[test]
fn test_count_moves_same_ends() {
    let hand = (1 << 0) | (1 << 7);
    assert_eq!(count_moves_bb(hand, 0, 0), 1);
}

#[test]
fn generated_moves_come_left_end_first() {
    let hand = (1 << 0) | (1 << 1) | (1 << 7);
    assert_eq!(moves_of(hand, 0, 1, 0), vec![(0, 0), (1, 0), (1, 1), (7, 1)]);
    assert_eq!(moves_of(hand, 7, 7, 3), vec![(0, 0), (1, 0), (7, 0)]);
}

#[test]
fn equal_ends_give_each_tile_once() {
    let hand = (1 << 0) | (1 << 1) | (1 << 7) | (1 << 27);
    assert_eq!(moves_of(hand, 1, 1, 5), vec![(1, 0), (7, 0)]);
    assert_eq!(count_moves_bb(hand, 1, 1), 2);
}

#[test]
fn move_count_follows_the_suit_masks() {
    let hands = [0x0fff_ffff, 0x0123_4567, 0x0a5a_5a5a, 0, 1 << 8];
    for &hand in hands.iter() {
        for left in 0..7i8 {
            for right in 0..7i8 {
                let n = moves_of(hand, left, right, 0).len() as i32;
                let sl = SUIT_MASK[left as usize];
                let sr = SUIT_MASK[right as usize];
                if left == right {
                    assert_eq!(n, popcount(sl & hand));
                } else {
                    assert_eq!(n, popcount((sl | sr) & hand) + popcount(sl & sr & hand));
                }
                assert_eq!(count_moves_bb(hand, left, right), popcount((sl | sr) & hand));
            }
        }
    }
}

#[test]
fn generation_leaves_other_plies_alone() {
    let mut buf = MoveBuffer::new();
    let n0 = generate_moves(&mut buf, 0b111, 7, 7, 0);
    let n1 = generate_moves(&mut buf, 1 << 27, 6, 6, 1);
    assert_eq!((n0, n1), (3, 1));
    assert_eq!(buf.tile_at(0, 2), 2);
    assert_eq!(buf.tile_at(1, 0), 27);
    assert_eq!(generate_moves(&mut buf, 0x0fff_ffff, 7, 7, 63), 28);
    assert_eq!(buf.tile_at(63, 27), 27);
}

#[test]
fn a_hand_of_another_suit_has_no_move() {
    let hand = (1 << 7) | (1 << 8) | (1 << 9);
    assert_eq!(moves_of(hand, 6, 6, 0), vec![]);
    assert_eq!(count_moves_bb(hand, 6, 6), 0);
    assert_eq!(moves_of(0, 7, 7, 0), vec![]);
}

#[test]
fn a_new_buffer_is_empty_and_generation_keeps_the_rest_of_a_ply() {
    let mut buf = MoveBuffer::new();
    assert!(buf.tile.iter().all(|&t| t == 0));
    assert!(buf.end.iter().all(|&e| e == 0));
    assert!(buf.score.iter().all(|&s| s == 0));
    assert_eq!(buf.tile.len(), 64 * 28);
    assert_eq!(generate_moves(&mut buf, 0x0fff_ffff, 7, 7, 2), 28);
    assert_eq!(generate_moves(&mut buf, 1 << 9, 3, 3, 2), 1);
    assert_eq!((buf.tile_at(2, 0), buf.tile_at(2, 1), buf.tile_at(2, 27)), (9, 1, 27));
}

#[test]
fn the_hint_comes_to_the_front() {
    let mut buf = MoveBuffer::new();
    let n = generate_moves(&mut buf, 0b1111, 7, 7, 1);
    assert_eq!(buf.hint_to_front(1, n, 2, 0), 2);
    let moves: Vec<i8> = (0..n).map(|i| buf.tile_at(1, i)).collect();
    assert_eq!(moves, vec![2, 1, 0, 3]);
    // A move at the front already, and a move that is not in the list.
    assert_eq!(buf.hint_to_front(1, n, 2, 0), 0);
    assert_eq!(buf.hint_to_front(1, n, 3, 1), 0);
    assert_eq!(buf.hint_to_front(1, n, 9, 0), 0);
    let same: Vec<i8> = (0..n).map(|i| buf.tile_at(1, i)).collect();
    assert_eq!(same, moves);
}
