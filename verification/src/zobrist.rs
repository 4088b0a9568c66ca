//! Zobrist keys for positions: one 32-bit word for each tile in each hand,
//! for each value of each board end, for the side to move and for a pending
//! pass, all drawn from one xorshift32 stream.
use vstd::prelude::*;
use crate::bitset::{bits_below, lemma_no_bits, mask_bits, take_lowest};
use crate::lookup::{hand_tiles, is_tile, lemma_hand_tiles, lemma_tile_bit, valid_hand};

verus! {

/// The seed of the key stream.
pub const ZOBRIST_SEED: u32 = 0x12345678;

/// The keys in the order of their draw: for each tile its key in the engine's
/// hand and its key in the opponent's hand, then the eight keys of the left
/// end, the eight keys of the right end, the key of the side to move and the
/// two keys of the pass counter.
pub const ZOBRIST_WORDS: [u32; 75] = [
    0x87985aa5, 0x155b24a3, 0x4820f4c4, 0x81b3ac98, 0x703a0788,
    0x29a8e24d, 0x89ca4f1d, 0xc5186e29, 0xd37862a7, 0x3ab14b11,
    0x69bf3df8, 0x4e0f25f8, 0xfcbe64a0, 0x3565ea15, 0x8cc6cec6,
    0xf6daad69, 0xcd8c4692, 0xee9aa39d, 0xe7c283c9, 0x40c4fa94,
    0x2d54bebf, 0xeae37c3e, 0x29fb2f0c, 0xcf4ba921, 0xf79556d6,
    0xf4b8b651, 0xac2e0a68, 0xc104a7f9, 0xea8e0d84, 0x4ced9b7b,
    0x0fd213fa, 0xf803d0ac, 0xc0d42547, 0xcbe00859, 0x9782e8ac,
    0x9876b107, 0x8498b3ac, 0xcf42219a, 0xe555a062, 0x7a60d10e,
    0x686504ee, 0xd7ecb2d2, 0x776c9329, 0x4431f40d, 0x2cbd43f5,
    0x1cb79314, 0x3479ebbe, 0x28cbc819, 0x68d0df5d, 0x14539ec0,
    0x96fe0da5, 0xbe1a4600, 0x2d9d90cd, 0x6f0b9eef, 0x86186004,
    0xc90c0408, 0x7829390e, 0xbe1207ca, 0x238c2f5f, 0x6a9411ec,
    0xfd9552b8, 0xaf8d5279, 0xbd8c6398, 0x0e101787, 0x90fecf17,
    0x6a9d78b9, 0x74cd75fc, 0x94218065, 0x21833c13, 0x862e9d73,
    0xe59a21d3, 0x95a23163, 0xa2492c24, 0x7e701782, 0xec8d5182,
];

/// One step of the xorshift32 generator.
pub open spec fn xorshift_step(s: u32) -> u32 {
    let a = s ^ (s << 13);
    let b = a ^ (a >> 17);
    b ^ (b << 5)
}

/// The state of the generator after `n` steps from the seed; the `n`-th
/// draw, for `n >= 1`.
pub open spec fn zobrist_draw(n: nat) -> u32
    decreases n,
{
    if n == 0 {
        ZOBRIST_SEED
    } else {
        xorshift_step(zobrist_draw((n - 1) as nat))
    }
}

/// Each key follows from the key before it by one step of the generator.
proof fn lemma_words_chain(n: int)
    requires
        0 <= n < 75,
    ensures
        ZOBRIST_WORDS[n] == xorshift_step(if n == 0 { ZOBRIST_SEED } else { ZOBRIST_WORDS[n - 1] }),
{
    assert(xorshift_step(0x12345678u32) == 0x87985aa5u32
        && xorshift_step(0x87985aa5u32) == 0x155b24a3u32
        && xorshift_step(0x155b24a3u32) == 0x4820f4c4u32
        && xorshift_step(0x4820f4c4u32) == 0x81b3ac98u32
        && xorshift_step(0x81b3ac98u32) == 0x703a0788u32
        && xorshift_step(0x703a0788u32) == 0x29a8e24du32
        && xorshift_step(0x29a8e24du32) == 0x89ca4f1du32
        && xorshift_step(0x89ca4f1du32) == 0xc5186e29u32
        && xorshift_step(0xc5186e29u32) == 0xd37862a7u32
        && xorshift_step(0xd37862a7u32) == 0x3ab14b11u32
        && xorshift_step(0x3ab14b11u32) == 0x69bf3df8u32
        && xorshift_step(0x69bf3df8u32) == 0x4e0f25f8u32
        && xorshift_step(0x4e0f25f8u32) == 0xfcbe64a0u32
        && xorshift_step(0xfcbe64a0u32) == 0x3565ea15u32
        && xorshift_step(0x3565ea15u32) == 0x8cc6cec6u32
        && xorshift_step(0x8cc6cec6u32) == 0xf6daad69u32
        && xorshift_step(0xf6daad69u32) == 0xcd8c4692u32
        && xorshift_step(0xcd8c4692u32) == 0xee9aa39du32
        && xorshift_step(0xee9aa39du32) == 0xe7c283c9u32
        && xorshift_step(0xe7c283c9u32) == 0x40c4fa94u32
        && xorshift_step(0x40c4fa94u32) == 0x2d54bebfu32
        && xorshift_step(0x2d54bebfu32) == 0xeae37c3eu32
        && xorshift_step(0xeae37c3eu32) == 0x29fb2f0cu32
        && xorshift_step(0x29fb2f0cu32) == 0xcf4ba921u32
        && xorshift_step(0xcf4ba921u32) == 0xf79556d6u32) by (bit_vector);
    assert(xorshift_step(0xf79556d6u32) == 0xf4b8b651u32
        && xorshift_step(0xf4b8b651u32) == 0xac2e0a68u32
        && xorshift_step(0xac2e0a68u32) == 0xc104a7f9u32
        && xorshift_step(0xc104a7f9u32) == 0xea8e0d84u32
        && xorshift_step(0xea8e0d84u32) == 0x4ced9b7bu32
        && xorshift_step(0x4ced9b7bu32) == 0x0fd213fau32
        && xorshift_step(0x0fd213fau32) == 0xf803d0acu32
        && xorshift_step(0xf803d0acu32) == 0xc0d42547u32
        && xorshift_step(0xc0d42547u32) == 0xcbe00859u32
        && xorshift_step(0xcbe00859u32) == 0x9782e8acu32
        && xorshift_step(0x9782e8acu32) == 0x9876b107u32
        && xorshift_step(0x9876b107u32) == 0x8498b3acu32
        && xorshift_step(0x8498b3acu32) == 0xcf42219au32
        && xorshift_step(0xcf42219au32) == 0xe555a062u32
        && xorshift_step(0xe555a062u32) == 0x7a60d10eu32
        && xorshift_step(0x7a60d10eu32) == 0x686504eeu32
        && xorshift_step(0x686504eeu32) == 0xd7ecb2d2u32
        && xorshift_step(0xd7ecb2d2u32) == 0x776c9329u32
        && xorshift_step(0x776c9329u32) == 0x4431f40du32
        && xorshift_step(0x4431f40du32) == 0x2cbd43f5u32
        && xorshift_step(0x2cbd43f5u32) == 0x1cb79314u32
        && xorshift_step(0x1cb79314u32) == 0x3479ebbeu32
        && xorshift_step(0x3479ebbeu32) == 0x28cbc819u32
        && xorshift_step(0x28cbc819u32) == 0x68d0df5du32
        && xorshift_step(0x68d0df5du32) == 0x14539ec0u32) by (bit_vector);
    assert(xorshift_step(0x14539ec0u32) == 0x96fe0da5u32
        && xorshift_step(0x96fe0da5u32) == 0xbe1a4600u32
        && xorshift_step(0xbe1a4600u32) == 0x2d9d90cdu32
        && xorshift_step(0x2d9d90cdu32) == 0x6f0b9eefu32
        && xorshift_step(0x6f0b9eefu32) == 0x86186004u32
        && xorshift_step(0x86186004u32) == 0xc90c0408u32
        && xorshift_step(0xc90c0408u32) == 0x7829390eu32
        && xorshift_step(0x7829390eu32) == 0xbe1207cau32
        && xorshift_step(0xbe1207cau32) == 0x238c2f5fu32
        && xorshift_step(0x238c2f5fu32) == 0x6a9411ecu32
        && xorshift_step(0x6a9411ecu32) == 0xfd9552b8u32
        && xorshift_step(0xfd9552b8u32) == 0xaf8d5279u32
        && xorshift_step(0xaf8d5279u32) == 0xbd8c6398u32
        && xorshift_step(0xbd8c6398u32) == 0x0e101787u32
        && xorshift_step(0x0e101787u32) == 0x90fecf17u32
        && xorshift_step(0x90fecf17u32) == 0x6a9d78b9u32
        && xorshift_step(0x6a9d78b9u32) == 0x74cd75fcu32
        && xorshift_step(0x74cd75fcu32) == 0x94218065u32
        && xorshift_step(0x94218065u32) == 0x21833c13u32
        && xorshift_step(0x21833c13u32) == 0x862e9d73u32
        && xorshift_step(0x862e9d73u32) == 0xe59a21d3u32
        && xorshift_step(0xe59a21d3u32) == 0x95a23163u32
        && xorshift_step(0x95a23163u32) == 0xa2492c24u32
        && xorshift_step(0xa2492c24u32) == 0x7e701782u32
        && xorshift_step(0x7e701782u32) == 0xec8d5182u32) by (bit_vector);
}

/// The key table holds the first 75 draws of the generator.
pub proof fn lemma_zobrist_words(n: int)
    requires
        0 <= n < 75,
    ensures
        ZOBRIST_WORDS[n] == zobrist_draw((n + 1) as nat),
    decreases n,
{
    lemma_words_chain(n);
    if n > 0 {
        lemma_zobrist_words(n - 1);
    } else {
        assert(zobrist_draw(0) == ZOBRIST_SEED);
    }
}

/// The key of tile `t` held by the engine (`hand == 0`) or by the opponent
/// (`hand == 1`).
pub open spec fn tile_key(t: int, hand: int) -> i32 {
    ZOBRIST_WORDS[2 * t + hand] as i32
}

/// The key of the left end showing `v` (7: the empty board).
pub open spec fn left_key(v: int) -> i32 {
    ZOBRIST_WORDS[56 + v] as i32
}

/// The key of the right end showing `v` (7: the empty board).
pub open spec fn right_key(v: int) -> i32 {
    ZOBRIST_WORDS[64 + v] as i32
}

/// The key of the opponent being the side to move.
pub open spec fn side_key() -> i32 {
    ZOBRIST_WORDS[72] as i32
}

/// The `i`-th key of the pass counter.
pub open spec fn conspass_key(i: int) -> i32 {
    ZOBRIST_WORDS[73 + i] as i32
}

/// The keys of the given tiles in the hand `hand`, combined by exclusive or.
pub open spec fn hand_hash(tiles: Seq<int>, hand: int) -> i32
    decreases tiles.len(),
{
    if tiles.len() == 0 {
        0
    } else {
        hand_hash(tiles.drop_last(), hand) ^ tile_key(tiles.last(), hand)
    }
}

/// The key that is part of a hash only under a condition.
pub open spec fn key_if(present: bool, key: i32) -> i32 {
    if present {
        key
    } else {
        0
    }
}

/// The hash of a position: the exclusive or of the keys of the tiles in the
/// two hands, of the two ends, of the side to move where that is the
/// opponent, and of the pass counter where a pass is pending.
pub open spec fn root_hash(
    ai_hand: i32,
    human_hand: i32,
    left: int,
    right: int,
    is_ai: bool,
    cons_pass: int,
) -> i32 {
    hand_hash(hand_tiles(ai_hand), 0) ^ hand_hash(hand_tiles(human_hand), 1) ^ left_key(left)
        ^ right_key(right) ^ key_if(!is_ai, side_key()) ^ key_if(cons_pass > 0, conspass_key(1))
}

/// The key of tile `tile_idx` in the engine's hand (`hand == 0`) or in the
/// opponent's (`hand == 1`).
pub fn tile_hash(tile_idx: usize, hand: usize) -> (key: i32)
    requires
        tile_idx < 28,
        hand < 2,
    ensures
        key == tile_key(tile_idx as int, hand as int),
        key == zobrist_draw((2 * tile_idx + hand + 1) as nat) as i32,
{
    proof {
        lemma_zobrist_words(2 * tile_idx + hand);
    }
    ZOBRIST_WORDS[2 * tile_idx + hand] as i32
}

/// The key of the left end showing `val`.
pub fn left_hash(val: usize) -> (key: i32)
    requires
        val < 8,
    ensures
        key == left_key(val as int),
        key == zobrist_draw((57 + val) as nat) as i32,
{
    proof {
        lemma_zobrist_words(56 + val);
    }
    ZOBRIST_WORDS[56 + val] as i32
}

/// The key of the right end showing `val`.
pub fn right_hash(val: usize) -> (key: i32)
    requires
        val < 8,
    ensures
        key == right_key(val as int),
        key == zobrist_draw((65 + val) as nat) as i32,
{
    proof {
        lemma_zobrist_words(64 + val);
    }
    ZOBRIST_WORDS[64 + val] as i32
}

/// The key of the opponent being the side to move.
pub fn side_hash() -> (key: i32)
    ensures
        key == side_key(),
        key == zobrist_draw(73) as i32,
{
    proof {
        lemma_zobrist_words(72);
    }
    ZOBRIST_WORDS[72] as i32
}

/// The `idx`-th key of the pass counter.
pub fn conspass_hash(idx: usize) -> (key: i32)
    requires
        idx < 2,
    ensures
        key == conspass_key(idx as int),
        key == zobrist_draw((74 + idx) as nat) as i32,
{
    proof {
        lemma_zobrist_words(73 + idx);
    }
    ZOBRIST_WORDS[73 + idx] as i32
}

/// A xorshift32 generator.
pub struct Xorshift32 {
    pub state: u32,
}

impl Xorshift32 {
    /// The generator in the state `seed`.
    pub fn new(seed: u32) -> (rng: Xorshift32)
        ensures
            rng.state == seed,
    {
        Xorshift32 { state: seed }
    }

    /// Advances the generator by one step and returns the new state.
    pub fn next(&mut self) -> (word: u32)
        ensures
            final(self).state == xorshift_step(old(self).state),
            word == final(self).state,
    {
        let s0: u32 = self.state;
        let a: u32 = s0 ^ (s0 << 13);
        let b: u32 = a ^ (a >> 17);
        let c: u32 = b ^ (b << 5);
        self.state = c;
        c
    }
}

/// The key tables, by what each key stands for.
pub struct ZobristTables {
    /// For each tile, its key in the engine's hand and in the opponent's.
    pub tile_hash: [[u32; 2]; 28],
    pub left_hash: [u32; 8],
    pub right_hash: [u32; 8],
    pub side_hash: u32,
    pub conspass_hash: [u32; 2],
}

impl ZobristTables {
    /// The tables hold the draws of the generator in their order: the tile
    /// keys first, then the left, the right, the side and the pass keys.
    pub open spec fn wf(&self) -> bool {
        &&& forall|t: int, h: int|
            0 <= t < 28 && 0 <= h < 2 ==> (#[trigger] self.tile_hash[t][h]) == zobrist_draw(
                (2 * t + h + 1) as nat,
            )
        &&& forall|v: int|
            0 <= v < 8 ==> (#[trigger] self.left_hash[v]) == zobrist_draw((57 + v) as nat)
        &&& forall|v: int|
            0 <= v < 8 ==> (#[trigger] self.right_hash[v]) == zobrist_draw((65 + v) as nat)
        &&& self.side_hash == zobrist_draw(73)
        &&& forall|i: int|
            0 <= i < 2 ==> (#[trigger] self.conspass_hash[i]) == zobrist_draw((74 + i) as nat)
    }
}

/// Draws the key tables from a generator seeded with `ZOBRIST_SEED`.
pub fn generate_zobrist() -> (tables: ZobristTables)
    ensures
        tables.wf(),
{
    let mut rng = Xorshift32::new(ZOBRIST_SEED);
    let mut tile_hash: [[u32; 2]; 28] = [[0u32; 2]; 28];
    let mut i: usize = 0;
    while i < 28
        invariant
            i <= 28,
            rng.state == zobrist_draw((2 * i) as nat),
            forall|t: int, h: int|
                0 <= t < i && 0 <= h < 2 ==> (#[trigger] tile_hash[t][h]) == zobrist_draw(
                    (2 * t + h + 1) as nat,
                ),
        decreases 28 - i,
    {
        let w0: u32 = rng.next();
        let w1: u32 = rng.next();
        assert(w0 == zobrist_draw((2 * i + 1) as nat));
        assert(w1 == zobrist_draw((2 * i + 2) as nat));
        tile_hash[i] = [w0, w1];
        i += 1;
    }
    let mut left_hash: [u32; 8] = [0u32; 8];
    let mut i: usize = 0;
    while i < 8
        invariant
            i <= 8,
            rng.state == zobrist_draw((56 + i) as nat),
            forall|v: int| 0 <= v < i ==> (#[trigger] left_hash[v]) == zobrist_draw((57 + v) as nat),
        decreases 8 - i,
    {
        let w: u32 = rng.next();
        assert(w == zobrist_draw((57 + i) as nat));
        left_hash[i] = w;
        i += 1;
    }
    let mut right_hash: [u32; 8] = [0u32; 8];
    let mut i: usize = 0;
    while i < 8
        invariant
            i <= 8,
            rng.state == zobrist_draw((64 + i) as nat),
            forall|v: int| 0 <= v < i ==> (#[trigger] right_hash[v]) == zobrist_draw((65 + v) as nat),
        decreases 8 - i,
    {
        let w: u32 = rng.next();
        assert(w == zobrist_draw((65 + i) as nat));
        right_hash[i] = w;
        i += 1;
    }
    let side_hash: u32 = rng.next();
    assert(side_hash == zobrist_draw(73));
    let c0: u32 = rng.next();
    assert(c0 == zobrist_draw(74));
    let c1: u32 = rng.next();
    assert(c1 == zobrist_draw(75));
    let conspass_hash: [u32; 2] = [c0, c1];
    ZobristTables { tile_hash, left_hash, right_hash, side_hash, conspass_hash }
}

/// Exclusive or is associative and commutative, and every word is its own
/// inverse.
pub proof fn lemma_xor(a: i32, b: i32, c: i32)
    ensures
        (a ^ b) ^ c == a ^ (b ^ c),
        a ^ b == b ^ a,
        a ^ a == 0,
        a ^ 0 == a,
        0 ^ a == a,
        (a ^ b) ^ b == a,
        (a ^ b) ^ c == (a ^ c) ^ b,
{
    assert((a ^ b) ^ c == a ^ (b ^ c) && a ^ b == b ^ a && a ^ a == 0 && a ^ 0 == a && 0 ^ a == a
        && (a ^ b) ^ b == a && (a ^ b) ^ c == (a ^ c) ^ b) by (bit_vector);
}

/// The hash of a position from scratch (see `root_hash`).
pub fn compute_root_hash(
    ai_hand: i32,
    human_hand: i32,
    left: i8,
    right: i8,
    is_ai: bool,
    cons_pass: i32,
) -> (hash: i32)
    requires
        valid_hand(ai_hand),
        valid_hand(human_hand),
        0 <= left <= 7,
        0 <= right <= 7,
    ensures
        hash == root_hash(ai_hand, human_hand, left as int, right as int, is_ai, cons_pass as int),
{
    let mut h: i32 = fold_hand(ai_hand, 0);
    h ^= fold_hand(human_hand, 1);
    h ^= left_hash(left as usize);
    h ^= right_hash(right as usize);
    if !is_ai {
        h ^= side_hash();
    }
    proof {
        lemma_xor(h, 0, 0);
    }
    if cons_pass > 0 {
        h ^= conspass_hash(1);
    }
    h
}

/// The keys of the tiles of one hand, combined.
fn fold_hand(hand_mask: i32, hand: usize) -> (h: i32)
    requires
        valid_hand(hand_mask),
        hand < 2,
    ensures
        h == hand_hash(hand_tiles(hand_mask), hand as int),
{
    let ghost tiles = hand_tiles(hand_mask);
    let mut h: i32 = 0;
    let mut m: u32 = hand_mask as u32;
    let ghost mut k: int = 0;
    proof {
        lemma_hand_tiles(hand_mask);
        assert(tiles.skip(0) =~= tiles);
        assert(tiles.take(0) =~= Seq::<int>::empty());
    }
    while m != 0
        invariant
            hand < 2,
            tiles == hand_tiles(hand_mask),
            forall|i: int| 0 <= i < tiles.len() ==> is_tile(#[trigger] tiles[i]),
            0 <= k <= tiles.len(),
            mask_bits(m) == tiles.skip(k),
            h == hand_hash(tiles.take(k), hand as int),
        decreases m,
    {
        let (idx, rest) = take_lowest(m);
        proof {
            assert(tiles.skip(k)[0] == tiles[k]);
            assert(tiles.skip(k).skip(1) =~= tiles.skip(k + 1));
            assert(tiles.take(k + 1).drop_last() =~= tiles.take(k));
        }
        h ^= tile_hash(idx, hand);
        m = rest;
        proof {
            k = k + 1;
        }
    }
    proof {
        lemma_no_bits(32);
        assert(tiles.skip(k).len() == 0);
        assert(tiles.take(k) =~= tiles);
    }
    h
}

/// The hash after a placement, from the hash before: the key of the tile
/// leaves the mover's hand (`hand`: 0 the engine, 1 the opponent), each end
/// changes from its old to its new value, the side to move changes, and a
/// pending pass is cleared.
pub open spec fn hash_after_move(
    hash: i32,
    t: int,
    hand: int,
    left: int,
    new_left: int,
    right: int,
    new_right: int,
    cons_pass: int,
) -> i32 {
    hash ^ tile_key(t, hand) ^ left_key(left) ^ left_key(new_left) ^ right_key(right) ^ right_key(
        new_right,
    ) ^ side_key() ^ key_if(cons_pass > 0, conspass_key(1))
}

/// The hash after a pass, from the hash before: the side to move changes and
/// the pass counter goes from `cons_pass` to `cons_pass + 1`.
pub open spec fn hash_after_pass(hash: i32, cons_pass: int) -> i32 {
    hash ^ side_key() ^ key_if(cons_pass > 0, conspass_key(1)) ^ key_if(
        cons_pass + 1 > 0,
        conspass_key(1),
    )
}

/// The hash after a placement (see `hash_after_move`).
pub fn hash_after_placement(
    hash: i32,
    tile_idx: usize,
    hand: usize,
    left: i8,
    new_left: i8,
    right: i8,
    new_right: i8,
    cons_pass: i32,
) -> (h: i32)
    requires
        tile_idx < 28,
        hand < 2,
        0 <= left <= 7,
        0 <= new_left <= 7,
        0 <= right <= 7,
        0 <= new_right <= 7,
    ensures
        h == hash_after_move(
            hash,
            tile_idx as int,
            hand as int,
            left as int,
            new_left as int,
            right as int,
            new_right as int,
            cons_pass as int,
        ),
{
    let mut h: i32 = hash;
    h ^= tile_hash(tile_idx, hand);
    h ^= left_hash(left as usize);
    h ^= left_hash(new_left as usize);
    h ^= right_hash(right as usize);
    h ^= right_hash(new_right as usize);
    h ^= side_hash();
    proof {
        lemma_xor(h, 0, 0);
    }
    if cons_pass > 0 {
        h ^= conspass_hash(1);
    }
    h
}

/// The hash after a pass (see `hash_after_pass`).
pub fn hash_after_passing(hash: i32, cons_pass: i32) -> (h: i32)
    requires
        cons_pass < i32::MAX,
    ensures
        h == hash_after_pass(hash, cons_pass as int),
{
    let mut h: i32 = hash;
    h ^= side_hash();
    proof {
        lemma_xor(h, 0, 0);
    }
    if cons_pass > 0 {
        h ^= conspass_hash(1);
    }
    proof {
        lemma_xor(h, 0, 0);
    }
    if cons_pass + 1 > 0 {
        h ^= conspass_hash(1);
    }
    h
}

/// Taking a tile out of a hand, or putting one in, changes the combined key
/// of the hand by the key of that tile.
pub proof fn lemma_hand_hash_toggle(hand_mask: i32, t: int, hand: int)
    requires
        valid_hand(hand_mask),
        is_tile(t),
    ensures
        valid_hand(hand_mask ^ (1i32 << (t as u32))),
        hand_hash(hand_tiles(hand_mask ^ (1i32 << (t as u32))), hand) == hand_hash(
            hand_tiles(hand_mask),
            hand,
        ) ^ tile_key(t, hand),
{
    let bit = 1i32 << (t as u32);
    lemma_tile_bit(t);
    crate::lookup::lemma_hand_ops(hand_mask, bit);
    let tu = t as u32;
    assert((hand_mask ^ (1i32 << tu)) as u32 == (hand_mask as u32) ^ (1u32 << tu)) by (bit_vector)
        requires
            tu < 28,
    ;
    lemma_fold_toggle(hand_mask as u32, t, hand, 32);
}

proof fn lemma_fold_toggle(m: u32, t: int, hand: int, n: int)
    requires
        0 <= t < 32,
        0 <= n <= 32,
    ensures
        hand_hash(bits_below(m ^ (1u32 << (t as u32)), n), hand) == if n > t {
            hand_hash(bits_below(m, n), hand) ^ tile_key(t, hand)
        } else {
            hand_hash(bits_below(m, n), hand)
        },
    decreases n,
{
    let c = m ^ (1u32 << (t as u32));
    if n > 0 {
        lemma_fold_toggle(m, t, hand, n - 1);
        let j = n - 1;
        let s = bits_below(m, j);
        let sc = bits_below(c, j);
        crate::bitset::lemma_mask_ops(m, 1u32 << (t as u32), j);
        crate::bitset::lemma_single_bit(t, j);
        assert(s.push(j).drop_last() =~= s);
        assert(sc.push(j).drop_last() =~= sc);
        let a = hand_hash(s, hand);
        lemma_xor(a, tile_key(t, hand), tile_key(j, hand));
    }
}

/// Incremental equivalence for a placement: where `hash` is the hash of a
/// position, `hash_after_move` is the hash of the position after the side to
/// move has placed its tile `t` and the ends have become `new_left` and
/// `new_right`.
pub proof fn lemma_hash_after_move(
    ai_hand: i32,
    human_hand: i32,
    left: int,
    right: int,
    is_ai: bool,
    cons_pass: int,
    t: int,
    new_left: int,
    new_right: int,
)
    requires
        valid_hand(ai_hand),
        valid_hand(human_hand),
        is_tile(t),
    ensures
        root_hash(
            if is_ai { ai_hand ^ (1i32 << (t as u32)) } else { ai_hand },
            if is_ai { human_hand } else { human_hand ^ (1i32 << (t as u32)) },
            new_left,
            new_right,
            !is_ai,
            0,
        ) == hash_after_move(
            root_hash(ai_hand, human_hand, left, right, is_ai, cons_pass),
            t,
            if is_ai { 0 } else { 1 },
            left,
            new_left,
            right,
            new_right,
            cons_pass,
        ),
{
    let a = hand_hash(hand_tiles(ai_hand), 0);
    let h = hand_hash(hand_tiles(human_hand), 1);
    let kt = tile_key(t, if is_ai { 0 } else { 1 });
    let l = left_key(left);
    let l2 = left_key(new_left);
    let r = right_key(right);
    let r2 = right_key(new_right);
    let s = side_key();
    let sk = key_if(!is_ai, s);
    let sk2 = key_if(is_ai, s);
    let ck = key_if(cons_pass > 0, conspass_key(1));
    let z = key_if(false, conspass_key(1));
    lemma_hand_hash_toggle(ai_hand, t, 0);
    lemma_hand_hash_toggle(human_hand, t, 1);
    let a2 = if is_ai { a ^ kt } else { a };
    let h2 = if is_ai { h } else { h ^ kt };
    assert(sk2 == sk ^ s) by {
        lemma_xor(s, 0, 0);
    }
    assert(a2 ^ h2 == (a ^ h) ^ kt) by {
        lemma_xor(a, h, kt);
    }
    let ah = a ^ h;
    let ah2 = a2 ^ h2;
    assert(ah2 ^ l2 ^ r2 ^ sk2 ^ z == (ah ^ l ^ r ^ sk ^ ck) ^ kt ^ l ^ l2 ^ r ^ r2 ^ s ^ ck)
        by (bit_vector)
        requires
            ah2 == ah ^ kt,
            sk2 == sk ^ s,
            z == 0,
    ;
}

/// Incremental equivalence for a pass: where `hash` is the hash of a
/// position, `hash_after_pass` is the hash of the same position with the
/// other side to move and one more pass pending.
pub proof fn lemma_hash_after_pass(
    ai_hand: i32,
    human_hand: i32,
    left: int,
    right: int,
    is_ai: bool,
    cons_pass: int,
)
    ensures
        root_hash(ai_hand, human_hand, left, right, !is_ai, cons_pass + 1) == hash_after_pass(
            root_hash(ai_hand, human_hand, left, right, is_ai, cons_pass),
            cons_pass,
        ),
{
    let ah = hand_hash(hand_tiles(ai_hand), 0) ^ hand_hash(hand_tiles(human_hand), 1);
    let l = left_key(left);
    let r = right_key(right);
    let s = side_key();
    let sk = key_if(!is_ai, s);
    let sk2 = key_if(is_ai, s);
    let c = conspass_key(1);
    let ck = key_if(cons_pass > 0, c);
    let ck2 = key_if(cons_pass + 1 > 0, c);
    assert(sk2 == sk ^ s) by {
        lemma_xor(s, 0, 0);
    }
    assert(ah ^ l ^ r ^ sk2 ^ ck2 == (ah ^ l ^ r ^ sk ^ ck) ^ s ^ ck ^ ck2) by (bit_vector)
        requires
            sk2 == sk ^ s,
    ;
}

} // verus!
