//! Geometry of the 10x12 mailbox board shared by both board models.
use vstd::prelude::*;

verus! {

/// Number of cells of the mailbox (10 columns, 12 rows).
pub const CELLS: usize = 120;

/// Value stored in every cell outside the playing area.
pub const OFF_BOARD: i32 = -11;

/// Rust's truncating division by a positive divisor.
pub open spec fn tdiv(x: int, d: int) -> int {
    if x >= 0 { x / d } else { -((-x) / d) }
}

/// Rust's remainder (sign of the dividend) for a positive divisor.
pub open spec fn trem(x: int, d: int) -> int {
    x - d * tdiv(x, d)
}

/// Colour code of a cell value as the engine computes it (`value / 10`):
/// 1 for white pieces, 2 for black pieces.
pub open spec fn colour(v: i32) -> int {
    tdiv(v as int, 10)
}

/// A cell of the 8x8 playing area.
pub open spec fn is_inner(i: int) -> bool {
    21 <= i <= 98 && i % 10 != 0 && i % 10 != 9
}

/// The frame around the playing area holds the off-board marker.
pub open spec fn frame_ok(f: Seq<i32>) -> bool {
    &&& f.len() == 120
    &&& forall|i: int| 0 <= i < 120 && !is_inner(i) ==> #[trigger] f[i] == OFF_BOARD
}

/// Whether cell `i` lies inside the playing area.
pub fn inner_cell(i: i32) -> (b: bool)
    ensures
        b == is_inner(i as int),
{
    21 <= i && i <= 98 && i % 10 != 0 && i % 10 != 9
}

/// Whether the frame of `field` holds the off-board marker.
pub fn has_frame(field: &[i32; 120]) -> (b: bool)
    ensures
        b == frame_ok(field@),
{
    let mut i: usize = 0;
    while i < CELLS
        invariant
            i <= CELLS,
            field@.len() == 120,
            forall|j: int| 0 <= j < i && !is_inner(j) ==> #[trigger] field@[j] == OFF_BOARD,
        decreases CELLS - i,
    {
        let inner = 21 <= i && i <= 98 && i % 10 != 0 && i % 10 != 9;
        if !inner && field[i] != OFF_BOARD {
            return false;
        }
        i = i + 1;
    }
    true
}

/// Exec counterpart of `colour`.
pub fn colour_of(v: i32) -> (c: i32)
    ensures
        c == colour(v),
{
    v / 10
}

} // verus!
