//! Zobrist keys for hashing board positions (threefold repetition).
use vstd::prelude::*;
use crate::square::CELLS;

verus! {

/// Number of keys: 12 piece kinds on 120 cells, plus one for black to move.
pub const KEY_COUNT: usize = 1441;

/// Index of the key that marks "black to move".
pub const SIDE_KEY: usize = 1440;

/// The key with index `k` (a SplitMix64 output).
pub open spec fn zobrist_key(k: u64) -> u64 {
    let z0 = k.wrapping_add(1u64).wrapping_mul(0x9E37_79B9_7F4A_7C15u64);
    let z1 = (z0 ^ (z0 >> 30u64)).wrapping_mul(0xBF58_476D_1CE4_E5B9u64);
    let z2 = (z1 ^ (z1 >> 27u64)).wrapping_mul(0x94D0_49BB_1331_11EBu64);
    z2 ^ (z2 >> 31u64)
}

/// Slot of a piece value among the twelve piece kinds, or -1 for anything else.
pub open spec fn piece_slot(v: i32) -> int {
    if 10 <= v <= 15 {
        v - 10
    } else if 20 <= v <= 25 {
        v - 14
    } else {
        -1
    }
}

/// Contribution of the value `v` standing on cell `sq`.
pub open spec fn cell_key(v: i32, sq: int) -> u64 {
    if piece_slot(v) >= 0 {
        zobrist_key((piece_slot(v) * 120 + sq) as u64)
    } else {
        0
    }
}

/// XOR of the contributions of the first `n` cells.
pub open spec fn cells_hash(f: Seq<i32>, n: int) -> u64
    decreases n,
{
    if n <= 0 {
        0
    } else {
        cells_hash(f, n - 1) ^ cell_key(f[n - 1], n - 1)
    }
}

/// Hash of a position: all 120 cells and the side to move.
pub open spec fn position_hash(f: Seq<i32>, white_to_move: bool) -> u64 {
    if white_to_move {
        cells_hash(f, 120)
    } else {
        cells_hash(f, 120) ^ zobrist_key(SIDE_KEY as u64)
    }
}

fn key_at(k: u64) -> (r: u64)
    ensures
        r == zobrist_key(k),
{
    let z0 = k.wrapping_add(1).wrapping_mul(0x9E37_79B9_7F4A_7C15);
    let z1 = (z0 ^ (z0 >> 30)).wrapping_mul(0xBF58_476D_1CE4_E5B9);
    let z2 = (z1 ^ (z1 >> 27)).wrapping_mul(0x94D0_49BB_1331_11EB);
    z2 ^ (z2 >> 31)
}

fn slot_of(v: i32) -> (s: i32)
    ensures
        s == piece_slot(v),
{
    if 10 <= v && v <= 15 {
        v - 10
    } else if 20 <= v && v <= 25 {
        v - 14
    } else {
        -1
    }
}

/// Table of precomputed Zobrist keys.
#[derive(Debug, Clone)]
pub struct ZobristTable {
    keys: Vec<u64>,
}

impl ZobristTable {
    /// The table holds exactly the keys `zobrist_key(0..KEY_COUNT)`.
    pub closed spec fn wf(&self) -> bool {
        &&& self.keys@.len() == KEY_COUNT
        &&& forall|k: int| 0 <= k < KEY_COUNT ==> #[trigger] self.keys@[k] == zobrist_key(k as u64)
    }

    pub fn new() -> (t: ZobristTable)
        ensures
            t.wf(),
    {
        let mut keys: Vec<u64> = Vec::with_capacity(KEY_COUNT);
        let mut k: usize = 0;
        while k < KEY_COUNT
            invariant
                k <= KEY_COUNT,
                keys@.len() == k,
                forall|j: int| 0 <= j < k ==> #[trigger] keys@[j] == zobrist_key(j as u64),
            decreases KEY_COUNT - k,
        {
            let key = key_at(k as u64);
            keys.push(key);
            k = k + 1;
        }
        ZobristTable { keys }
    }

    /// Whether the table holds exactly the keys `zobrist_key(0..KEY_COUNT)`.
    pub fn is_valid(&self) -> (b: bool)
        ensures
            b == self.wf(),
    {
        if self.keys.len() != KEY_COUNT {
            return false;
        }
        let mut k: usize = 0;
        while k < KEY_COUNT
            invariant
                k <= KEY_COUNT,
                self.keys@.len() == KEY_COUNT,
                forall|j: int| 0 <= j < k ==> #[trigger] self.keys@[j] == zobrist_key(j as u64),
            decreases KEY_COUNT - k,
        {
            if self.keys[k] != key_at(k as u64) {
                return false;
            }
            k = k + 1;
        }
        true
    }

    /// Hash of the cells `field` with the given side to move.
    pub fn hash_position(&self, field: &[i32; 120], white_to_move: bool) -> (h: u64)
        requires
            self.wf(),
        ensures
            h == position_hash(field@, white_to_move),
    {
        let mut h: u64 = 0;
        let mut sq: usize = 0;
        while sq < CELLS
            invariant
                self.wf(),
                sq <= CELLS,
                h == cells_hash(field@, sq as int),
            decreases CELLS - sq,
        {
            let slot = slot_of(field[sq]);
            if slot >= 0 {
                let idx = (slot as usize) * 120 + sq;
                assert(idx == piece_slot(field@[sq as int]) * 120 + sq);
                h = h ^ self.keys[idx];
            } else {
                assert(cell_key(field@[sq as int], sq as int) == 0);
                assert(h ^ 0u64 == h) by (bit_vector);
            }
            sq = sq + 1;
        }
        if !white_to_move {
            h = h ^ self.keys[SIDE_KEY];
        }
        h
    }
}

} // verus!
