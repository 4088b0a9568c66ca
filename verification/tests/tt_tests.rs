use domino_ai::tt::{
    tt_clear, tt_new_generation, tt_probe, tt_store, TranspositionTable, TT_EXACT, TT_LOWER,
    TT_SIZE, TT_UPPER,
};

#[test]
fn test_tt_store_and_probe() {
    let mut tt = TranspositionTable::new();
    tt_clear(&mut tt);
    tt_new_generation(&mut tt);

    let hash = 0x12345678_u32 as i32;
    tt_store(&mut tt, hash, 5, TT_EXACT, 42, 3, 1);

    let hit = tt_probe(&tt, hash, 5, -1000, 1000);
    assert!(hit.is_some());
    let h = hit.unwrap();
    assert_eq!(h.best_idx, 3);
    assert_eq!(h.best_end, 1);
    assert_eq!(h.score, Some(42));
}

#[test]
fn test_tt_depth_insufficient() {
    let mut tt = TranspositionTable::new();
    tt_clear(&mut tt);
    tt_new_generation(&mut tt);

    let hash = 0xABCDEF01_u32 as i32;
    tt_store(&mut tt, hash, 3, TT_EXACT, 10, 2, 0);

    let hit = tt_probe(&tt, hash, 5, -1000, 1000);
    assert!(hit.is_some());
    let h = hit.unwrap();
    assert_eq!(h.best_idx, 2);
    assert_eq!(h.score, None);
}

#[test]
fn test_tt_lower_bound() {
    let mut tt = TranspositionTable::new();
    tt_clear(&mut tt);
    tt_new_generation(&mut tt);

    let hash = 0x11111111;
    tt_store(&mut tt, hash, 4, TT_LOWER, 50, 1, 0);

    let hit = tt_probe(&tt, hash, 4, 30, 40);
    assert!(hit.is_some());
    assert_eq!(hit.unwrap().score, Some(50));

    let hit2 = tt_probe(&tt, hash, 4, 30, 60);
    assert!(hit2.is_some());
    assert_eq!(hit2.unwrap().score, None);
}

#[test]
fn test_tt_generation_replacement() {
    let mut tt = TranspositionTable::new();
    tt_clear(&mut tt);
    tt_new_generation(&mut tt);

    let hash = 0x22222222;
    tt_store(&mut tt, hash, 10, TT_EXACT, 100, 5, 1);

    tt_new_generation(&mut tt);
    tt_store(&mut tt, hash, 2, TT_EXACT, 200, 6, 0);

    let hit = tt_probe(&tt, hash, 2, -1000, 1000);
    assert!(hit.is_some());
    let h = hit.unwrap();
    assert_eq!(h.best_idx, 6);
    assert_eq!(h.score, Some(200));
}

#[test]
fn probe_of_an_empty_or_foreign_slot_finds_nothing() {
    let mut tt = TranspositionTable::new();
    assert_eq!(tt.slots.len(), TT_SIZE);
    assert!(tt_probe(&tt, 77, 0, -10, 10).is_none());
    tt_store(&mut tt, 77, 1, TT_EXACT, 5, 0, 0);
    // Same slot, another hash.
    let other = 77 + (TT_SIZE as i32);
    assert!(tt_probe(&tt, other, 0, -10, 10).is_none());
    assert!(tt_probe(&tt, 77, 0, -10, 10).is_some());
}

#[test]
fn upper_bound_counts_at_or_below_alpha() {
    let mut tt = TranspositionTable::new();
    tt_store(&mut tt, 9, 4, TT_UPPER, 20, 1, 1);
    assert_eq!(tt_probe(&tt, 9, 4, 20, 40).unwrap().score, Some(20));
    assert_eq!(tt_probe(&tt, 9, 4, 19, 40).unwrap().score, None);
    assert_eq!(tt_probe(&tt, 9, 4, 19, 40).unwrap().best_idx, 1);
    tt_store(&mut tt, 10, 4, TT_LOWER, 20, 1, 1);
    assert_eq!(tt_probe(&tt, 10, 4, 0, 20).unwrap().score, Some(20));
    assert_eq!(tt_probe(&tt, 10, 4, 0, 21).unwrap().score, None);
}

#[test]
fn same_generation_keeps_the_deeper_entry() {
    let mut tt = TranspositionTable::new();
    tt_store(&mut tt, 5, 6, TT_EXACT, 11, 2, 0);
    tt_store(&mut tt, 5, 3, TT_EXACT, 22, 3, 1);
    let kept = tt_probe(&tt, 5, 0, -100, 100).unwrap();
    assert_eq!((kept.best_idx, kept.score), (2, Some(11)));
    // An equal depth replaces.
    tt_store(&mut tt, 5, 6, TT_EXACT, 33, 4, 1);
    let replaced = tt_probe(&tt, 5, 0, -100, 100).unwrap();
    assert_eq!((replaced.best_idx, replaced.score), (4, Some(33)));
}

#[test]
fn generations_wrap_after_256() {
    let mut tt = TranspositionTable::new();
    for _ in 0..255 {
        tt_new_generation(&mut tt);
    }
    assert_eq!(tt.generation, 255);
    tt_new_generation(&mut tt);
    assert_eq!(tt.generation, 0);
}

#[test]
fn clear_empties_every_slot() {
    let mut tt = TranspositionTable::new();
    tt_store(&mut tt, 1, 1, TT_EXACT, 1, 1, 1);
    tt_store(&mut tt, -1, 1, TT_EXACT, 2, 2, 0);
    assert!(tt_probe(&tt, -1, 0, -5, 5).is_some());
    tt_clear(&mut tt);
    assert!(tt_probe(&tt, 1, 0, -5, 5).is_none());
    assert!(tt_probe(&tt, -1, 0, -5, 5).is_none());
}
