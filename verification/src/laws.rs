//! What holds of every position: the empty board, eyes, and the test for
//! a single liberty.

use vstd::prelude::*;
use crate::stone::Stone;
use crate::vertex::{nbr, on_board, vertex_index, col_of, row_of, lemma_on_board_interior};
use crate::position::{Position, cell, num_incidences};
use crate::counting::lemma_count_none;
use crate::sums::{active, target, back, variance, lemma_variance, lemma_single_target, lemma_lsum_witness};
use crate::alive::lemma_base_nonnegative_total;

verus! {

/// The cell at position `i` of the list of empty cells of the empty board
/// of side `size` is playable, and on a board of side two or more it has
/// an empty neighbour.
pub proof fn lemma_initial_cell(size: int, i: int)
    requires
        1 <= size <= 19,
        0 <= i < size * size,
    ensures
        on_board(size, Position::initial(size).empties[i]),
        Position::initial(size).board[Position::initial(size).empties[i]] == Stone::Empty,
        size >= 2 ==> Position::initial(size).has_empty_neighbour(Position::initial(size).empties[i]),
{
    let p = Position::initial(size);
    let x = i % size;
    let y = i / size;
    assert(0 <= x < size);
    assert(0 <= y < size) by (nonlinear_arith)
        requires
            y == i / size,
            0 <= i < size * size,
            size >= 1,
    ;
    let v = vertex_index(x, y);
    assert(p.empties[i] == v);
    assert(col_of(v) == x && row_of(v) == y);
    assert(on_board(size, v));
    lemma_on_board_interior(size, v);
    if size >= 2 {
        if x + 1 < size {
            assert(nbr(v, 1) == vertex_index(x + 1, y));
            assert(on_board(size, nbr(v, 1)));
            assert(cell(p.board, nbr(v, 1)) == Stone::Empty);
        } else {
            assert(nbr(v, 0) == vertex_index(x - 1, y));
            assert(on_board(size, nbr(v, 0)));
            assert(cell(p.board, nbr(v, 0)) == Stone::Empty);
        }
    }
}

/// On the empty board of side two or more every one of the first `n`
/// empty cells is a possible move and none of them is an eye.
pub proof fn lemma_initial_moves(size: int, stone: Stone, n: int)
    requires
        2 <= size <= 19,
        0 <= n <= size * size,
    ensures
        Position::initial(size).moves_upto(stone, n).len() == n,
        Position::initial(size).eyes_upto(n) == 0,
    decreases n,
{
    if n > 0 {
        lemma_initial_moves(size, stone, n - 1);
        lemma_initial_cell(size, n - 1);
    }
}

/// Before the first move, on a board of any side but one: every cell is
/// empty and a possible move of either color, the score is zero and Black
/// is to move.
pub proof fn lemma_initial_board(size: int, stone: Stone)
    requires
        0 <= size <= 19,
        size != 1,
    ensures
        Position::initial(size).empties.len() == size * size,
        Position::initial(size).possible_moves(stone).len() == size * size,
        Position::initial(size).chinese_score() == 0,
        Position::initial(size).to_play == Stone::Black,
        Position::initial(size).ko == -1,
        Position::initial(size).history.len() == 0,
{
    let p = Position::initial(size);
    assert(size * size >= 0) by (nonlinear_arith);
    lemma_count_none(p.board, Stone::Black, 441);
    lemma_count_none(p.board, Stone::White, 441);
    if size >= 2 {
        lemma_initial_moves(size, stone, size * size);
    } else {
        assert(size * size == 0) by (nonlinear_arith)
            requires
                size == 0,
        ;
    }
}

/// A board that has been cleared answers as a new board of its side: both
/// hold the position before the first move, so the legal moves, the score
/// and the side to move are the same.
pub proof fn lemma_cleared_is_new(cleared: Position, fresh: Position, size: int, stone: Stone, v: int)
    requires
        cleared == Position::initial(size),
        fresh == Position::initial(size),
    ensures
        cleared == fresh,
        cleared.possible_moves(stone) == fresh.possible_moves(stone),
        cleared.can_play(stone, v) == fresh.can_play(stone, v),
        cleared.chinese_score() == fresh.chinese_score(),
        cleared.to_play == fresh.to_play,
{
}

/// A cell whose four neighbours are own stones or border, and of whose
/// diagonals fewer than two are lost to the opponent, the border taken as
/// one lost diagonal, may not be played by its owner.
pub proof fn lemma_eye_is_forbidden(pos: Position, stone: Stone, v: int)
    requires
        v != -1,
        pos.eye_like(stone, v),
    ensures
        !pos.can_play(stone, v),
{
}

/// The liberties below `n` of a string are listed in ascending order, are
/// liberties, and leave out none.
pub proof fn lemma_liberties_listed(pos: Position, h: int, n: int)
    requires
        0 <= n,
    ensures
        forall|j: int| 0 <= j < pos.liberties_upto(h, n).len() ==> 0 <= #[trigger] pos.liberties_upto(h, n)[j] < n && pos.is_liberty(h, pos.liberties_upto(h, n)[j]),
        forall|j: int, k: int| 0 <= j < k < pos.liberties_upto(h, n).len() ==> pos.liberties_upto(h, n)[j] < pos.liberties_upto(h, n)[k],
        forall|w: int| 0 <= w < n && pos.is_liberty(h, w) ==> pos.liberties_upto(h, n).contains(w),
    decreases n,
{
    if n > 0 {
        lemma_liberties_listed(pos, h, n - 1);
        let prev = pos.liberties_upto(h, n - 1);
        let cur = pos.liberties_upto(h, n);
        if pos.is_liberty(h, n - 1) {
            assert(cur == prev.push(n - 1));
            assert forall|w: int| 0 <= w < n && pos.is_liberty(h, w) implies cur.contains(w) by {
                if w < n - 1 {
                    let j = choose|j: int| 0 <= j < prev.len() && prev[j] == w;
                    assert(cur[j] == w);
                } else {
                    assert(cur[prev.len() as int] == w);
                }
            }
        }
    }
}

/// A pair that counts for a string points to a liberty of the string.
pub proof fn lemma_active_is_liberty(pos: Position, h: int, e: int)
    requires
        pos.valid_board(),
        pos.valid_strings(),
        0 <= h < 441,
        pos.has_stone(h),
        0 <= e < num_incidences(),
        active(pos.board, pos.head, h, e),
    ensures
        pos.is_liberty(h, target(e)),
        0 <= target(e) < 441,
{
    let w = e / 4;
    let k = e % 4;
    assert(0 <= k < 4);
    assert(pos.has_stone(w)) by {
        if !pos.has_stone(w) {
            assert(pos.head[w] == w);
        }
    }
    assert(nbr(target(e), back(k)) == w);
    assert(pos.in_string(nbr(target(e), back(k)), h));
}

/// A liberty of a string is pointed to by a pair that counts for it.
pub proof fn lemma_liberty_is_active(pos: Position, h: int, w: int) -> (e: int)
    requires
        pos.valid_board(),
        0 <= w < 441,
        pos.is_liberty(h, w),
    ensures
        0 <= e < num_incidences(),
        active(pos.board, pos.head, h, e),
        target(e) == w,
{
    let j = if pos.in_string(nbr(w, 0), h) {
        0int
    } else if pos.in_string(nbr(w, 1), h) {
        1
    } else if pos.in_string(nbr(w, 2), h) {
        2
    } else {
        3
    };
    let u = nbr(w, j);
    assert(pos.in_string(u, h));
    let e = 4 * u + back(j);
    assert(e / 4 == u && e % 4 == back(j));
    assert(nbr(u, back(j)) == w);
    e
}

/// The test on the counters of a string says that it is in atari exactly
/// when the string has one liberty.
pub proof fn lemma_atari_is_single_liberty(pos: Position, v: int)
    requires
        pos.valid(),
        pos.has_stone(v),
    ensures
        pos.in_atari(pos.head[v]) <==> pos.liberties(v).len() == 1,
{
    lemma_atari_counts(pos, v);
}

/// The same of a position of which only the stones, the strings and their
/// liberties are known to be valid.
pub proof fn lemma_atari_counts(pos: Position, v: int)
    requires
        pos.valid_board(),
        pos.valid_strings(),
        pos.valid_liberties(),
        pos.has_stone(v),
    ensures
        pos.in_atari(pos.head[v]) <==> pos.liberties(v).len() == 1,
{
    let h = pos.head[v];
    assert(0 <= h < 441 && pos.head[h] == h && pos.has_stone(h));
    lemma_base_nonnegative_total(pos, h);
    let libs = pos.liberties_upto(h, 441);
    lemma_liberties_listed(pos, h, 441);
    assert(pos.in_atari(h) <==> variance(pos.board, pos.head, h, num_incidences()) == 0);
    if pos.in_atari(h) {
        lemma_variance(pos.board, pos.head, h, num_incidences());
        assert(pos.summary(h, 0) > 0);
        let e0 = lemma_lsum_witness(pos.board, pos.head, h, num_incidences());
        lemma_active_is_liberty(pos, h, e0);
        assert(libs.contains(target(e0)));
        assert(libs.len() >= 1);
        if libs.len() >= 2 {
            let e1 = lemma_liberty_is_active(pos, h, libs[0]);
            let e2 = lemma_liberty_is_active(pos, h, libs[1]);
            assert(target(e1) == target(e2));
            assert(libs[0] < libs[1]);
            assert(false);
        }
    }
    if libs.len() == 1 {
        let t = libs[0];
        assert forall|e: int| 0 <= e < num_incidences() && active(pos.board, pos.head, h, e) implies target(e) == t by {
            lemma_active_is_liberty(pos, h, e);
            assert(libs.contains(target(e)));
        }
        lemma_single_target(pos.board, pos.head, h, t, num_incidences());
    }
}

} // verus!
