//! Which stones a move takes off the board.

use vstd::prelude::*;
use crate::stone::Stone;
use crate::vertex::{nbr, on_board};
use crate::position::{Position, cell, total, incidence, num_incidences};
use crate::sums::{active, back, target, lemma_lsum_same, lemma_lsum_none, lemma_lsum_witness, lemma_lsum_some};
use crate::alive::lemma_base_nonnegative_total;
use crate::laws::{lemma_liberties_listed, lemma_active_is_liberty, lemma_liberty_is_active};

verus! {

/// How far capturing has come when the first `j` neighbours of the stone
/// just placed at `v` have been examined: of the position `placed` the
/// opponent strings without liberties next to one of these neighbours are
/// off the board, and nothing else has changed for the stones that are
/// left.
pub open spec fn capture_progress(placed: Position, now: Position, stone: Stone, v: int, j: int) -> bool {
    &&& now.size == placed.size
    &&& forall|w: int|
        0 <= w < 441 ==> #[trigger] now.board[w] == (if placed.board[w] == stone.spec_opponent() && placed.dead(placed.head[w]) && placed.friend_head_upto(
            stone.spec_opponent(),
            v,
            placed.head[w],
            j,
        ) {
            Stone::Empty
        } else {
            placed.board[w]
        })
    &&& forall|w: int| 0 <= w < 441 && now.has_stone(w) ==> #[trigger] now.head[w] == placed.head[w]
    &&& forall|h: int|
        0 <= h < 441 && now.has_stone(h) && #[trigger] now.head[h] == h && now.board[h] == stone.spec_opponent() ==> now.summary(h, 0) == placed.summary(h, 0)
}

/// Before the first neighbour is examined nothing has been captured.
pub proof fn lemma_capture_begin(placed: Position, stone: Stone, v: int)
    requires
        placed.board.len() == 441,
    ensures
        capture_progress(placed, placed, stone, v, 0),
{
}

/// Examining the `j`-th neighbour carries the capturing one step on.
#[verifier::rlimit(50)]
pub proof fn lemma_capture_progress(placed: Position, now: Position, stone: Stone, v: int, j: int)
    requires
        placed.valid_board(),
        placed.valid_strings(),
        now.valid_board(),
        now.valid_strings(),
        now.valid_maximal(),
        22 <= v <= 418,
        0 <= j < 4,
        stone.is_color(),
        capture_progress(placed, now, stone, v, j),
    ensures
        capture_progress(placed, now.capture_at(stone, v, j), stone, v, j + 1),
{
    let opp = stone.spec_opponent();
    let n = nbr(v, j);
    let next = now.capture_at(stone, v, j);
    if cell(now.board, n) == opp && now.dead(now.head_of(n)) {
        let h = now.head[n];
        assert(now.has_stone(n));
        assert(now.head[h] == h && now.has_stone(h) && now.board[h] == opp);
        assert(placed.board[n] == opp);
        assert(placed.head[n] == h);
        assert(placed.summary(h, 0) == now.summary(h, 0));
        assert(placed.friend_head_upto(opp, v, h, j + 1));
        assert forall|w: int| 0 <= w < 441 implies #[trigger] next.board[w] == (if placed.board[w] == opp && placed.dead(placed.head[w])
            && placed.friend_head_upto(opp, v, placed.head[w], j + 1) {
            Stone::Empty
        } else {
            placed.board[w]
        }) by {
            if now.in_string(w, h) {
                assert(placed.head[w] == h);
                assert(placed.board[w] == now.board[w]);
                assert(now.board[w] == now.board[h]);
            } else if now.has_stone(w) {
                assert(placed.head[w] == now.head[w]);
                assert(placed.head[w] != h);
            }
        }
        assert forall|w: int| 0 <= w < 441 && next.has_stone(w) implies #[trigger] next.head[w] == placed.head[w] by {
            assert(now.has_stone(w) && !now.in_string(w, h));
        }
        assert forall|x: int| 0 <= x < 441 && next.has_stone(x) && #[trigger] next.head[x] == x && next.board[x] == opp implies next.summary(x, 0)
            == placed.summary(x, 0) by {
            assert(now.has_stone(x) && !now.in_string(x, h));
            assert(now.head[x] == x && x != h);
            assert forall|e: int| 0 <= e < num_incidences() implies incidence(now.board, now.head, x, 0, e) == incidence(next.board, next.head, x, 0, e) by {
                let w = e / 4;
                let k = e % 4;
                assert(0 <= k < 4);
                let t = nbr(w, k);
                if now.head[w] == x {
                    assert(now.has_stone(w)) by {
                        if !now.has_stone(w) {
                            assert(now.head[w] == w);
                        }
                    }
                    assert(!now.in_string(w, h));
                    assert(next.head[w] == x);
                    assert(now.board[w] == opp);
                    if 0 <= t < 441 && now.in_string(t, h) {
                        // a neighbour of the same color belongs to the same string
                        assert(now.board[t] == now.board[h]);
                        assert(cell(now.board, nbr(w, k)) == now.board[w]);
                        assert(now.head_of(nbr(w, k)) == now.head[w]);
                        assert(false);
                    }
                    assert(cell(next.board, t) == cell(now.board, t));
                } else {
                    if next.head[w] == x {
                        assert(now.in_string(w, h));
                        assert(w == x);
                        assert(false);
                    }
                }
            }
            lemma_lsum_same(now.board, now.head, next.board, next.head, x, 0, num_incidences());
        }
    } else {
        assert forall|w: int| 0 <= w < 441 implies #[trigger] next.board[w] == (if placed.board[w] == opp && placed.dead(placed.head[w])
            && placed.friend_head_upto(opp, v, placed.head[w], j + 1) {
            Stone::Empty
        } else {
            placed.board[w]
        }) by {
            let hw = placed.head[w];
            if placed.board[w] == opp && placed.dead(hw) && placed.friend_head_upto(opp, v, hw, j + 1) && !placed.friend_head_upto(opp, v, hw, j) {
                // the string is met for the first time now, and would be taken
                assert(cell(placed.board, n) == opp && placed.head_of(n) == hw);
                assert(0 <= n < 441);
                assert(placed.head[n] == hw);
                assert(!placed.friend_head_upto(opp, v, placed.head[n], j));
                assert(now.board[n] == opp);
                assert(now.has_stone(n));
                assert(now.head[n] == hw);
                assert(now.head[hw] == hw && now.has_stone(hw) && now.board[hw] == opp);
                assert(now.summary(hw, 0) == placed.summary(hw, 0));
                assert(false);
            }
        }
    }
}

/// An opponent string has no liberty after the stone has been placed
/// exactly when the cell of the stone was its only liberty.
#[verifier::rlimit(50)]
pub proof fn lemma_placed_dead(p: Position, stone: Stone, v: int, heads: Seq<int>, h: int)
    requires
        p.valid_board(),
        p.valid_strings(),
        p.valid_liberties(),
        on_board(p.size, v),
        p.board[v] == Stone::Empty,
        stone.is_color(),
        heads.len() == 441,
        forall|w: int| 0 <= w < 441 ==> #[trigger] heads[w] == (if w == v || p.friend_head_upto(stone, v, p.head[w], 4) { heads[v] } else { p.head[w] }),
        heads[v] == v || p.friend_head_upto(stone, v, heads[v], 4),
        0 <= h < 441,
        p.has_stone(h),
        p.head[h] == h,
        p.board[h] == stone.spec_opponent(),
    ensures
        (Position { board: p.board.update(v, stone), head: heads, ..p }).dead(h) <==> p.last_liberty(h, v),
        forall|w: int| 0 <= w < 441 ==> (#[trigger] heads[w] == h <==> p.head[w] == h),
{
    let pl = Position { board: p.board.update(v, stone), head: heads, ..p };
    let opp = stone.spec_opponent();
    crate::vertex::lemma_on_board_interior(p.size, v);
    assert(p.head[v] == v);
    // no stone of the color played has the head of an opponent string
    assert(!p.friend_head_upto(stone, v, h, 4)) by {
        assert forall|j: int| 0 <= j < 4 && cell(p.board, nbr(v, j)) == stone implies p.head_of(nbr(v, j)) != h by {
            let u = nbr(v, j);
            assert(p.has_stone(u));
            assert(p.board[p.head[u]] == p.board[u]);
        }
    }
    assert(heads[v] != h) by {
        if heads[v] != v {
            assert(p.friend_head_upto(stone, v, heads[v], 4));
        }
    }
    assert forall|w: int| 0 <= w < 441 implies (#[trigger] heads[w] == h <==> p.head[w] == h) by {}
    lemma_base_nonnegative_total(p, h);
    assert(on_board(p.size, h));
    assert(pl.summary(h, 0) == total(pl.board, pl.head, h, 0));
    let libs = p.liberties_upto(h, 441);
    lemma_liberties_listed(p, h, 441);
    if p.last_liberty(h, v) {
        assert forall|e: int| 0 <= e < num_incidences() implies !active(pl.board, pl.head, h, e) by {
            if active(pl.board, pl.head, h, e) {
                assert(p.head[e / 4] == h);
                assert(target(e) != v);
                assert(active(p.board, p.head, h, e));
                lemma_active_is_liberty(p, h, e);
                assert(libs.contains(target(e)));
                let i = choose|i: int| 0 <= i < libs.len() && libs[i] == target(e);
                assert(libs[i] == v);
            }
        }
        lemma_lsum_none(pl.board, pl.head, h, 0, num_incidences());
    }
    if pl.dead(h) {
        crate::sums::lemma_total_bounds(pl.board, pl.head, h);
        // every liberty of the string is the cell of the stone
        assert forall|w: int| 0 <= w < 441 && p.is_liberty(h, w) implies w == v by {
            if w != v {
                let e = lemma_liberty_is_active(p, h, w);
                assert(active(pl.board, pl.head, h, e));
                lemma_lsum_some(pl.board, pl.head, h, e, num_incidences());
            }
        }
        assert(p.summary(h, 0) > 0);
        let e0 = lemma_lsum_witness(p.board, p.head, h, num_incidences());
        lemma_active_is_liberty(p, h, e0);
        assert(target(e0) == v);
        assert(libs.contains(v));
        assert(libs.len() >= 1);
        if libs.len() >= 2 {
            assert(p.is_liberty(h, libs[0]) && p.is_liberty(h, libs[1]));
            assert(libs[0] < libs[1]);
            assert(false);
        }
        assert(p.is_liberty(h, libs[0]));
        assert(libs =~= seq![v]);
    }
}

/// When all four neighbours have been examined, the stones on the board
/// are those after the move: the strings whose last liberty the stone has
/// filled are off, and nothing else has changed.
#[verifier::rlimit(50)]
pub proof fn lemma_capture_end(p: Position, placed: Position, done: Position, stone: Stone, v: int)
    requires
        p.valid_board(),
        p.valid_strings(),
        p.valid_liberties(),
        on_board(p.size, v),
        p.board[v] == Stone::Empty,
        stone.is_color(),
        placed.board == p.board.update(v, stone),
        placed.size == p.size,
        placed.head.len() == 441,
        forall|w: int| 0 <= w < 441 ==> #[trigger] placed.head[w] == (if w == v || p.friend_head_upto(stone, v, p.head[w], 4) { placed.head[v] } else { p.head[w] }),
        placed.head[v] == v || p.friend_head_upto(stone, v, placed.head[v], 4),
        done.board.len() == 441,
        capture_progress(placed, done, stone, v, 4),
    ensures
        done.board == p.board_after(stone, v),
{
    let opp = stone.spec_opponent();
    crate::vertex::lemma_on_board_interior(p.size, v);
    assert forall|w: int| 0 <= w < 441 implies done.board[w] == p.board_after(stone, v)[w] by {
        if w == v {
            assert(placed.board[w] == stone);
        } else if p.board[w] == opp {
            let h = p.head[w];
            assert(p.has_stone(w));
            assert(p.head[h] == h && p.has_stone(h) && p.board[h] == opp);
            lemma_placed_dead(p, stone, v, placed.head, h);
            let pl = Position { board: p.board.update(v, stone), head: placed.head, ..p };
            assert(pl.summary(h, 0) == placed.summary(h, 0));
            assert(placed.head[w] == h);
            assert(p.head_of(w) == h);
            if p.last_liberty(h, v) {
                // the cell of the stone is a liberty, so a neighbour of it belongs to the string
                lemma_liberties_listed(p, h, 441);
                let libs = p.liberties_upto(h, 441);
                assert(libs[0] == v);
                assert(p.is_liberty(h, v));
                assert forall|k: int| 0 <= k < 4 && p.in_string(nbr(v, k), h) implies cell(placed.board, nbr(v, k)) == opp && placed.head_of(nbr(v, k)) == h by {
                    let u = nbr(v, k);
                    assert(p.board[u] == p.board[h]);
                }
                assert(placed.friend_head_upto(opp, v, h, 4));
            }
        } else {
            assert(placed.board[w] == p.board[w]);
        }
    }
    assert(done.board =~= p.board_after(stone, v));
}

/// A stone placed at `v` next to an opponent stone whose string had `v`
/// as its only liberty leaves the cell of that stone empty, and the cell
/// is then a liberty of the string of the stone placed.
pub proof fn lemma_capture_regains_liberty(before: Position, after: Position, stone: Stone, v: int, k: int)
    requires
        22 <= v <= 418,
        0 <= k < 4,
        stone.is_color(),
        before.board.len() == 441,
        before.taken_by(stone, v, nbr(v, k)),
        after.board == before.board_after(stone, v),
        after.head.len() == 441,
    ensures
        after.board[nbr(v, k)] == Stone::Empty,
        after.is_liberty(after.head[v], nbr(v, k)),
{
    let u = nbr(v, k);
    assert(nbr(u, back(k)) == v);
    assert(after.board[v] == stone);
    assert(after.in_string(v, after.head[v]));
}

/// The liberties of a string depend on the stones and the heads alone.
pub proof fn lemma_liberties_frame(left: Position, right: Position, h: int, n: int)
    requires
        left.board == right.board,
        left.head == right.head,
    ensures
        left.liberties_upto(h, n) == right.liberties_upto(h, n),
    decreases n,
{
    if n > 0 {
        lemma_liberties_frame(left, right, h, n - 1);
    }
}

/// The stones after a move depend on the stones and the heads alone.
pub proof fn lemma_board_after_frame(left: Position, right: Position, stone: Stone, v: int)
    requires
        left.board == right.board,
        left.head == right.head,
    ensures
        left.board_after(stone, v) == right.board_after(stone, v),
{
    assert forall|w: int| 0 <= w < 441 implies left.board_after(stone, v)[w] == right.board_after(stone, v)[w] by {
        lemma_liberties_frame(left, right, left.head_of(w), 441);
    }
    assert(left.board_after(stone, v) =~= right.board_after(stone, v));
}

} // verus!
