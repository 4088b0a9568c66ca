//! The transposition table: a fixed array of single slots, keyed by the low
//! bits of the position hash and aged by a generation counter.
use vstd::prelude::*;

verus! {

/// The number of slots.
pub const TT_SIZE: usize = 4194304;

/// The mask that takes a hash to its slot.
pub const TT_MASK: u32 = 0x3f_ffff;

/// The stored value is the exact score.
pub const TT_EXACT: u8 = 1;

/// The stored value is a lower bound of the score.
pub const TT_LOWER: u8 = 2;

/// The stored value is an upper bound of the score.
pub const TT_UPPER: u8 = 3;

/// One slot of the table. A slot with `flag == 0` is empty.
#[derive(Clone, Copy)]
pub struct TtSlot {
    pub hash: i32,
    pub depth: i32,
    pub flag: u8,
    pub value: i32,
    pub best_idx: i8,
    pub best_end: i8,
    pub generation: u8,
}

/// What a probe found: the stored best move as a hint, and the stored value
/// where it can stand for the score.
pub struct TtHit {
    pub best_idx: i8,
    pub best_end: i8,
    pub score: Option<i32>,
}

/// The table and its current generation.
pub struct TranspositionTable {
    pub slots: Vec<TtSlot>,
    pub generation: u8,
}

/// The slot that `hash` is kept in.
pub open spec fn slot_index(hash: i32) -> int {
    ((hash as u32) & TT_MASK) as int
}

/// The stored value can stand for the score of a search to `depth` in the
/// window `(alpha, beta)`: it was searched at least as deep, and it is exact,
/// or a lower bound not below `beta`, or an upper bound not above `alpha`.
pub open spec fn usable(slot: TtSlot, depth: int, alpha: int, beta: int) -> bool {
    slot.depth >= depth && (slot.flag == TT_EXACT || (slot.flag == TT_LOWER && slot.value >= beta)
        || (slot.flag == TT_UPPER && slot.value <= alpha))
}

/// What a probe for `hash` finds in `slot`.
pub open spec fn probe_slot(slot: TtSlot, hash: i32, depth: int, alpha: int, beta: int) -> Option<
    TtHit,
> {
    if slot.flag == 0 || slot.hash != hash {
        None
    } else {
        Some(
            TtHit {
                best_idx: slot.best_idx,
                best_end: slot.best_end,
                score: if usable(slot, depth, alpha, beta) {
                    Some(slot.value)
                } else {
                    None
                },
            },
        )
    }
}

/// A store to `depth` replaces `slot` in the generation `generation`: the
/// slot is empty, or of another generation, or not searched deeper.
pub open spec fn replaces(slot: TtSlot, generation: u8, depth: int) -> bool {
    slot.flag == 0 || slot.generation != generation || depth >= slot.depth
}

/// The slot after a store: the new entry where it replaces the old one.
pub open spec fn slot_after_store(
    slot: TtSlot,
    generation: u8,
    hash: i32,
    depth: i32,
    flag: u8,
    value: i32,
    best_idx: i8,
    best_end: i8,
) -> TtSlot {
    if replaces(slot, generation, depth as int) {
        TtSlot { hash, depth, flag, value, best_idx, best_end, generation }
    } else {
        slot
    }
}

/// The slot without its entry.
pub open spec fn emptied(slot: TtSlot) -> TtSlot {
    TtSlot { flag: 0, ..slot }
}

/// The slot that holds nothing.
pub open spec fn empty_slot() -> TtSlot {
    TtSlot { hash: 0, depth: 0, flag: 0, value: 0, best_idx: 0, best_end: 0, generation: 0 }
}

impl TranspositionTable {
    /// The table has its full size.
    pub open spec fn wf(&self) -> bool {
        self.slots@.len() == TT_SIZE
    }

    /// Every stored value lies strictly between `-bound` and `bound`.
    pub open spec fn values_within(&self, bound: int) -> bool {
        forall|i: int|
            0 <= i < self.slots@.len() && (#[trigger] self.slots@[i]).flag != 0 ==> -bound
                < self.slots@[i].value < bound
    }

    /// An empty table in generation 0.
    pub fn new() -> (tt: TranspositionTable)
        ensures
            tt.wf(),
            tt.generation == 0,
            forall|i: int| 0 <= i < TT_SIZE ==> #[trigger] tt.slots@[i] == empty_slot(),
    {
        let empty = TtSlot {
            hash: 0,
            depth: 0,
            flag: 0,
            value: 0,
            best_idx: 0,
            best_end: 0,
            generation: 0,
        };
        let mut slots: Vec<TtSlot> = Vec::with_capacity(TT_SIZE);
        let mut i: usize = 0;
        while i < TT_SIZE
            invariant
                i <= TT_SIZE,
                slots@.len() == i,
                empty == empty_slot(),
                forall|j: int| 0 <= j < i ==> #[trigger] slots@[j] == empty_slot(),
            decreases TT_SIZE - i,
        {
            slots.push(empty);
            i += 1;
        }
        TranspositionTable { slots, generation: 0 }
    }
}

/// Every hash has a slot.
pub proof fn lemma_slot_index(hash: i32)
    ensures
        0 <= slot_index(hash) < TT_SIZE,
{
    let h = hash as u32;
    assert(h & 0x3f_ffff < 0x40_0000) by (bit_vector);
}

/// The index of the slot of `hash`.
fn slot_of(hash: i32) -> (idx: usize)
    ensures
        idx == slot_index(hash),
        idx < TT_SIZE,
{
    let h: u32 = hash as u32;
    let low: u32 = h & TT_MASK;
    assert(h & 0x3f_ffff < 0x40_0000) by (bit_vector);
    low as usize
}

/// Starts a new generation; generations wrap modulo 256. Entries of earlier
/// generations stay, and give way to any store.
pub fn tt_new_generation(tt: &mut TranspositionTable)
    ensures
        final(tt).generation == (old(tt).generation + 1) % 256,
        final(tt).slots == old(tt).slots,
{
    tt.generation = if tt.generation == 255 {
        0
    } else {
        tt.generation + 1
    };
}

/// Empties every slot.
pub fn tt_clear(tt: &mut TranspositionTable)
    ensures
        final(tt).generation == old(tt).generation,
        final(tt).slots@.len() == old(tt).slots@.len(),
        forall|i: int|
            0 <= i < final(tt).slots@.len() ==> (#[trigger] final(tt).slots@[i]) == emptied(
                old(tt).slots@[i],
            ),
{
    let n: usize = tt.slots.len();
    let mut i: usize = 0;
    while i < n
        invariant
            i <= n,
            n == tt.slots@.len(),
            n == old(tt).slots@.len(),
            tt.generation == old(tt).generation,
            forall|j: int| 0 <= j < i ==> (#[trigger] tt.slots@[j]) == emptied(old(tt).slots@[j]),
            forall|j: int| i <= j < n ==> (#[trigger] tt.slots@[j]) == old(tt).slots@[j],
        decreases n - i,
    {
        let slot: TtSlot = tt.slots[i];
        tt.slots[i] = TtSlot { flag: 0, ..slot };
        i += 1;
    }
}

/// Looks `hash` up. Returns `None` where its slot is empty or holds another
/// hash. Otherwise returns the stored best move, and the stored value as
/// well where it can stand for the score of a search to `depth` in the window
/// `(alpha, beta)` (see `usable`).
pub fn tt_probe(tt: &TranspositionTable, hash: i32, depth: i32, alpha: i32, beta: i32) -> (hit:
    Option<TtHit>)
    requires
        tt.wf(),
    ensures
        hit == probe_slot(tt.slots@[slot_index(hash)], hash, depth as int, alpha as int, beta as int),
{
    let idx: usize = slot_of(hash);
    let slot: TtSlot = tt.slots[idx];
    if slot.flag == 0 {
        return None;
    }
    if slot.hash != hash {
        return None;
    }
    let mut result = TtHit { best_idx: slot.best_idx, best_end: slot.best_end, score: None };
    if slot.depth >= depth {
        let val: i32 = slot.value;
        let flag: u8 = slot.flag;
        if flag == TT_EXACT {
            result.score = Some(val);
        } else if flag == TT_LOWER && val >= beta {
            result.score = Some(val);
        } else if flag == TT_UPPER && val <= alpha {
            result.score = Some(val);
        }
    }
    Some(result)
}

/// Stores an entry for `hash` in the current generation. The entry replaces
/// what its slot holds where the slot is empty, or of another generation, or
/// holds a depth not above `depth`; otherwise the table stays as it is.
pub fn tt_store(
    tt: &mut TranspositionTable,
    hash: i32,
    depth: i32,
    flag: u8,
    value: i32,
    best_idx: i8,
    best_end: i8,
)
    requires
        old(tt).wf(),
    ensures
        final(tt).wf(),
        final(tt).generation == old(tt).generation,
        final(tt).slots@ == old(tt).slots@.update(
            slot_index(hash),
            slot_after_store(
                old(tt).slots@[slot_index(hash)],
                old(tt).generation,
                hash,
                depth,
                flag,
                value,
                best_idx,
                best_end,
            ),
        ),
{
    let idx: usize = slot_of(hash);
    let slot: TtSlot = tt.slots[idx];
    if slot.flag == 0 || slot.generation != tt.generation || depth >= slot.depth {
        let generation: u8 = tt.generation;
        tt.slots[idx] = TtSlot { hash, depth, flag, value, best_idx, best_end, generation };
    }
    assert(tt.slots@ =~= old(tt).slots@.update(
        slot_index(hash),
        slot_after_store(
            old(tt).slots@[slot_index(hash)],
            old(tt).generation,
            hash,
            depth,
            flag,
            value,
            best_idx,
            best_end,
        ),
    ));
}

} // verus!
