//! Facts about the rules that follow from their definition.

use vstd::prelude::*;
use crate::stone::Stone;
use crate::position::Position;

verus! {

/// Joining and capturing change neither the side of the board, nor the
/// side to move, the moves played or the ko point.
pub proof fn lemma_steps_frame(pos: Position, stone: Stone, v: int)
    ensures
        pos.joined(stone, v).size == pos.size,
        pos.joined(stone, v).to_play == pos.to_play,
        pos.joined(stone, v).history == pos.history,
        pos.joined(stone, v).ko == pos.ko,
        pos.joined(stone, v).board == pos.board,
        pos.joined(stone, v).empties == pos.empties,
        pos.captured_upto(stone, v, 4).size == pos.size,
        pos.captured_upto(stone, v, 4).to_play == pos.to_play,
        pos.captured_upto(stone, v, 4).history == pos.history,
        pos.captured_upto(stone, v, 4).ko == pos.ko,
{
    reveal_with_fuel(Position::merged_upto, 5);
    reveal_with_fuel(Position::captured_upto, 5);
}

/// A move that is tried keeps the side of the board. A legal move is
/// recorded and gives the turn to the opponent of the stone played.
pub proof fn lemma_play_frame(pos: Position, stone: Stone, v: int)
    ensures
        pos.tried(stone, v).size == pos.size,
        pos.can_play(stone, v) ==> pos.tried(stone, v).to_play == stone.spec_opponent() && pos.tried(stone, v).history == pos.history.push(v),
        !pos.can_play(stone, v) ==> pos.tried(stone, v) == pos,
{
    let begun = Position { to_play: stone.spec_opponent(), history: pos.history.push(v), ko: -1, ..pos };
    lemma_steps_frame(begun, stone, v);
    lemma_steps_frame(begun.joined(stone, v).placed(stone, v), stone, v);
}

/// Every possible move is a legal move at an empty cell, and there are no
/// more of them than empty cells examined.
pub proof fn lemma_possible_moves(pos: Position, stone: Stone, n: int)
    requires
        0 <= n <= pos.empties.len(),
    ensures
        pos.moves_upto(stone, n).len() <= n,
        forall|j: int| 0 <= j < pos.moves_upto(stone, n).len() ==> pos.empties.contains(#[trigger] pos.moves_upto(stone, n)[j]) && pos.can_play(
            stone,
            pos.moves_upto(stone, n)[j],
        ),
        forall|i: int| 0 <= i < n && pos.can_play(stone, pos.empties[i]) ==> pos.moves_upto(stone, n).contains(#[trigger] pos.empties[i]),
    decreases n,
{
    if n > 0 {
        lemma_possible_moves(pos, stone, n - 1);
        let prev = pos.moves_upto(stone, n - 1);
        let cur = pos.moves_upto(stone, n);
        let v = pos.empties[n - 1];
        if pos.can_play(stone, v) {
            assert(cur == prev.push(v));
            assert forall|j: int| 0 <= j < cur.len() implies pos.empties.contains(#[trigger] cur[j]) && pos.can_play(stone, cur[j]) by {
                if j < prev.len() {
                    assert(cur[j] == prev[j]);
                } else {
                    assert(cur[j] == v);
                }
            }
            assert forall|i: int| 0 <= i < n && pos.can_play(stone, pos.empties[i]) implies cur.contains(#[trigger] pos.empties[i]) by {
                if i < n - 1 {
                    assert(prev.contains(pos.empties[i]));
                    let j = choose|j: int| 0 <= j < prev.len() && prev[j] == pos.empties[i];
                    assert(cur[j] == pos.empties[i]);
                } else {
                    assert(cur[prev.len() as int] == v);
                }
            }
        }
    }
}

/// Where the cell at the position drawn is legal, it is the move: on a
/// board all of whose empty cells are legal the moves are spread as the
/// positions drawn are.
pub proof fn lemma_move_from_legal_start(pos: Position, stone: Stone, start: int)
    requires
        0 <= start < pos.empties.len(),
        pos.can_play(stone, pos.empties[start]),
    ensures
        pos.move_from(stone, start) == pos.empties[start],
{
}

/// If the search through `steps` entries of the list of empty cells from
/// position `i` on finds nothing, none of these entries is legal.
pub proof fn lemma_first_legal_none(pos: Position, stone: Stone, i: int, steps: int, t: int)
    requires
        0 <= i < pos.empties.len(),
        0 <= t < steps <= pos.empties.len(),
        forall|j: int| 0 <= j < pos.empties.len() ==> pos.empties[j] != -1,
        pos.first_legal(stone, i, steps) == -1,
    ensures
        !pos.can_play(stone, pos.empties[if i + t >= pos.empties.len() { i + t - pos.empties.len() } else { i + t }]),
    decreases steps,
{
    if t > 0 {
        lemma_first_legal_none(pos, stone, pos.next_index(i), steps - 1, t - 1);
    }
}

/// If the search from position `start` through the whole list of empty
/// cells finds nothing, no empty cell is legal.
pub proof fn lemma_no_legal_move(pos: Position, stone: Stone, start: int)
    requires
        0 <= start < pos.empties.len(),
        forall|j: int| 0 <= j < pos.empties.len() ==> pos.empties[j] != -1,
        pos.move_from(stone, start) == -1,
    ensures
        forall|j: int| 0 <= j < pos.empties.len() ==> !pos.can_play(stone, #[trigger] pos.empties[j]),
{
    let n = pos.empties.len() as int;
    assert forall|j: int| 0 <= j < n implies !pos.can_play(stone, #[trigger] pos.empties[j]) by {
        let t = if j >= start { j - start } else { j - start + n };
        lemma_first_legal_none(pos, stone, start, n, t);
    }
}

} // verus!
