//! Facts about the number of stones of a color.

use vstd::prelude::*;
use crate::stone::Stone;
use crate::position::count_upto;

verus! {

/// A count lies between zero and the number of cells counted.
pub proof fn lemma_count_bounds(board: Seq<Stone>, stone: Stone, n: int)
    requires
        0 <= n,
    ensures
        0 <= count_upto(board, stone, n) <= n,
    decreases n,
{
    if n > 0 {
        lemma_count_bounds(board, stone, n - 1);
    }
}

/// A stone that no cell holds is counted zero times.
pub proof fn lemma_count_none(board: Seq<Stone>, stone: Stone, n: int)
    requires
        forall|v: int| 0 <= v < n ==> board[v] != stone,
    ensures
        count_upto(board, stone, n) == 0,
    decreases n,
{
    if n > 0 {
        lemma_count_none(board, stone, n - 1);
    }
}

/// Changing one cell changes a count by at most one: it loses the old
/// stone and gains the new one.
pub proof fn lemma_count_update(board: Seq<Stone>, v: int, new_stone: Stone, stone: Stone, n: int)
    requires
        0 <= v < board.len(),
        0 <= n <= board.len(),
    ensures
        count_upto(board.update(v, new_stone), stone, n) == count_upto(board, stone, n) + (if v < n && new_stone == stone {
            1int
        } else {
            0
        }) - (if v < n && board[v] == stone {
            1int
        } else {
            0
        }),
    decreases n,
{
    if n > 0 {
        lemma_count_update(board, v, new_stone, stone, n - 1);
    }
}

} // verus!
