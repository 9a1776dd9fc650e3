//! What a `.layaut` file means once parsed: where boards stand and which
//! screen a section belongs to.

use vstd::prelude::*;

verus! {

/// Monitor width, height and diagonal in inches — the key of a
/// `[WxH@D]` section. `(0, 0, 0)` means "unknown".
pub type ScreenKey = (u32, u32, u32);

/// Where a board sits: (x, y) relative to home at (0, 0), on the axes
/// only.
pub type BoardId = (i32, i32);

/// Whether two positions are the same board.
pub fn same_board(a: BoardId, b: BoardId) -> (r: bool)
    ensures
        r == (a == b),
{
    a.0 == b.0 && a.1 == b.1
}

/// The board a position shows. The top and bottom boards are single
/// places reachable from anywhere on the row, so every (x, ±1) the
/// gesture can stand on shows the one board stored at (0, ±1); x is
/// only the place the slide down returns to.
pub fn board_key(k: BoardId) -> (r: BoardId)
    ensures
        r == (if k.1 != 0 {
            (0i32, k.1)
        } else {
            k
        }),
{
    if k.1 != 0 {
        (0, k.1)
    } else {
        k
    }
}

} // verus!
