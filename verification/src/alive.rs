//! Why every string still has a liberty after a legal move.

use vstd::prelude::*;
use crate::stone::Stone;
use crate::vertex::{nbr, on_board};
use crate::position::{Position, cell, total, incidence, num_incidences};
use crate::sums::{active, target, back, variance, lemma_lsum_monotone, lemma_lsum_some, lemma_lsum_witness, lemma_lsum_none,
    lemma_variance, lemma_single_target, lemma_incidence_bounds};

verus! {

/// The `j`-th neighbour of `v`, not before the `k`-th, is an opponent stone
/// of the string with head `x`.
pub open spec fn watched_at(pos: Position, stone: Stone, v: int, k: int, j: int, x: int) -> bool {
    k <= j && cell(pos.board, nbr(v, j)) == stone.spec_opponent() && pos.head_of(nbr(v, j)) == x
}

/// A neighbour of `v` that is still to be examined belongs to the opponent
/// string with head `x`.
pub open spec fn watched(pos: Position, stone: Stone, v: int, k: int, x: int) -> bool {
    watched_at(pos, stone, v, k, 0, x) || watched_at(pos, stone, v, k, 1, x) || watched_at(pos, stone, v, k, 2, x) || watched_at(pos, stone, v, k, 3, x)
}

/// The `j`-th neighbour of `v`, not before the `k`-th, is an opponent stone
/// whose string has no liberty.
pub open spec fn doomed_at(pos: Position, stone: Stone, v: int, k: int, j: int) -> bool {
    k <= j && cell(pos.board, nbr(v, j)) == stone.spec_opponent() && pos.dead(pos.head_of(nbr(v, j)))
}

/// A neighbour of `v` that is still to be examined will be captured.
pub open spec fn doomed(pos: Position, stone: Stone, v: int, k: int) -> bool {
    doomed_at(pos, stone, v, k, 0) || doomed_at(pos, stone, v, k, 1) || doomed_at(pos, stone, v, k, 2) || doomed_at(pos, stone, v, k, 3)
}

/// The string with head `x` has a liberty, or is an opponent string that
/// is still to be examined, or is the string of `v` and a capture next
/// to `v` is still to come.
pub open spec fn hope(pos: Position, stone: Stone, v: int, k: int, x: int) -> bool {
    pos.summary(x, 0) > 0 || (pos.board[x] == stone.spec_opponent() && watched(pos, stone, v, k, x)) || (x == pos.head[v] && doomed(pos, stone, v, k))
}

/// Every string of stones has reason to hope.
pub open spec fn hopeful(pos: Position, stone: Stone, v: int, k: int) -> bool {
    forall|x: int| 0 <= x < 441 && pos.has_stone(x) && #[trigger] pos.head[x] == x ==> hope(pos, stone, v, k, x)
}

/// Hope depends on the side, the stones and the heads alone.
pub proof fn lemma_hopeful_frame(left: Position, right: Position, stone: Stone, v: int, k: int)
    requires
        left.board == right.board,
        left.head == right.head,
        left.size == right.size,
        hopeful(left, stone, v, k),
    ensures
        hopeful(right, stone, v, k),
{
    assert forall|x: int| 0 <= x < 441 && right.has_stone(x) && #[trigger] right.head[x] == x implies hope(right, stone, v, k, x) by {
        assert(left.has_stone(x) && left.head[x] == x);
        assert(hope(left, stone, v, k, x));
    }
}

/// When all neighbours have been examined, hope is a liberty.
pub proof fn lemma_hopeful_end(pos: Position, stone: Stone, v: int)
    requires
        hopeful(pos, stone, v, 4),
    ensures
        pos.valid_liberties(),
{
    assert forall|h: int| 0 <= h < 441 && pos.has_stone(h) && #[trigger] pos.head[h] == h implies pos.summary(h, 0) > 0 by {
        assert(hope(pos, stone, v, 4, h));
    }
}

/// Examining the `k`-th neighbour of the stone just placed at `v`, and
/// capturing its string if it has no liberty, keeps hope.
#[verifier::rlimit(50)]
pub proof fn lemma_capture_step(pos: Position, stone: Stone, v: int, k: int)
    requires
        pos.valid_board(),
        pos.valid_strings(),
        22 <= v <= 418,
        0 <= k < 4,
        stone.is_color(),
        pos.board[v] == stone,
        hopeful(pos, stone, v, k),
    ensures
        hopeful(pos.capture_at(stone, v, k), stone, v, k + 1),
{
    let n = nbr(v, k);
    let opp = stone.spec_opponent();
    let new = pos.capture_at(stone, v, k);
    if cell(pos.board, n) == opp && pos.dead(pos.head_of(n)) {
        let hn = pos.head[n];
        assert(pos.has_stone(n));
        assert(pos.head[hn] == hn && pos.board[hn] == opp);
        let s = pos.head[v];
        assert(pos.has_stone(v));
        assert(pos.board[s] == stone && pos.head[s] == s);
        assert(!pos.in_string(v, hn));
        assert forall|x: int| 0 <= x < 441 && new.has_stone(x) && #[trigger] new.head[x] == x implies hope(new, stone, v, k + 1, x) by {
            assert(pos.has_stone(x) && !pos.in_string(x, hn));
            assert(pos.head[x] == x && x != hn);
            assert(hope(pos, stone, v, k, x));
            assert forall|e: int| 0 <= e < num_incidences() implies incidence(pos.board, pos.head, x, 0, e) <= incidence(new.board, new.head, x, 0, e) by {
                lemma_incidence_bounds(pos.board, pos.head, x, 0, e);
                lemma_incidence_bounds(new.board, new.head, x, 0, e);
                if active(pos.board, pos.head, x, e) {
                    let w = e / 4;
                    assert(!pos.in_string(w, hn));
                    assert(new.head[w] == x);
                    assert(active(new.board, new.head, x, e));
                }
            }
            lemma_lsum_monotone(pos.board, pos.head, new.board, new.head, x, 0, num_incidences());
            if pos.summary(x, 0) > 0 {
            } else if pos.board[x] == opp && watched(pos, stone, v, k, x) {
                assert forall|j: int| 0 <= j < 4 && watched_at(pos, stone, v, k, j, x) implies watched_at(new, stone, v, k + 1, j, x) by {
                    let u = nbr(v, j);
                    assert(pos.head[u] == x);
                    assert(!pos.in_string(u, hn));
                }
                assert(watched(new, stone, v, k + 1, x));
            } else {
                assert(x == s);
                let e = 4 * v + k;
                assert(e / 4 == v && e % 4 == k);
                assert(new.head[v] == s);
                assert(pos.in_string(n, hn));
                assert(new.board[n] == Stone::Empty);
                assert(active(new.board, new.head, x, e));
                lemma_lsum_some(new.board, new.head, x, e, num_incidences());
            }
        }
    } else {
        assert forall|x: int| 0 <= x < 441 && new.has_stone(x) && #[trigger] new.head[x] == x implies hope(new, stone, v, k + 1, x) by {
            assert(hope(pos, stone, v, k, x));
            if pos.summary(x, 0) > 0 {
            } else if pos.board[x] == opp && watched(pos, stone, v, k, x) {
                if watched_at(pos, stone, v, k, k, x) {
                    assert(pos.head_of(n) == x);
                    assert(!pos.dead(x));
                    lemma_base_nonnegative_total(pos, x);
                }
                assert(watched(new, stone, v, k + 1, x) || pos.summary(x, 0) > 0);
            } else {
                assert(doomed(pos, stone, v, k));
                assert(!doomed_at(pos, stone, v, k, k));
                assert(doomed(new, stone, v, k + 1));
            }
        }
    }
}

/// The count of a string of stones is never negative.
pub proof fn lemma_base_nonnegative_total(pos: Position, x: int)
    requires
        pos.valid_board(),
        0 <= x < 441,
        pos.has_stone(x),
    ensures
        pos.summary(x, 0) >= 0,
        pos.summary(x, 0) == total(pos.board, pos.head, x, 0),
        pos.summary(x, 1) == total(pos.board, pos.head, x, 1),
        pos.summary(x, 2) == total(pos.board, pos.head, x, 2),
{
    crate::sums::lemma_total_bounds(pos.board, pos.head, x);
    assert(on_board(pos.size, x));
}

/// After the legal move of `stone` at `v` has been placed, with the heads
/// `heads` that joining has left, every string has a liberty, or is an
/// opponent string next to `v`, or is the string of `v` and a neighbour of
/// `v` has lost its last liberty.
#[verifier::rlimit(50)]
pub proof fn lemma_placed_hopeful(p: Position, stone: Stone, v: int, heads: Seq<int>)
    requires
        p.valid_board(),
        p.valid_strings(),
        p.valid_liberties(),
        on_board(p.size, v),
        stone.is_color(),
        p.can_play(stone, v),
        heads.len() == 441,
        forall|w: int| 0 <= w < 441 ==> #[trigger] heads[w] == (if w == v || p.friend_head_upto(stone, v, p.head[w], 4) { heads[v] } else { p.head[w] }),
        heads[v] == v || p.friend_head_upto(stone, v, heads[v], 4),
    ensures
        hopeful(Position { board: p.board.update(v, stone), head: heads, ..p }, stone, v, 0),
{
    let pl = Position { board: p.board.update(v, stone), head: heads, ..p };
    let s = heads[v];
    let opp = stone.spec_opponent();
    crate::vertex::lemma_on_board_interior(p.size, v);
    assert(p.board[v] == Stone::Empty);
    assert(p.head[v] == v);
    assert(0 <= s < 441 && on_board(p.size, s)) by {
        if s != v {
            assert forall|k: int| 0 <= k < 4 && cell(p.board, nbr(v, k)) == stone && p.head_of(nbr(v, k)) == s implies on_board(p.size, s) && 0 <= s < 441 by {
                let n = nbr(v, k);
                assert(p.has_stone(n));
                assert(p.board[p.head[n]] == p.board[n]);
            }
        }
    }
    assert forall|x: int| 0 <= x < 441 && pl.has_stone(x) && #[trigger] pl.head[x] == x implies hope(pl, stone, v, 0, x) by {
        if x == s {
            if p.has_empty_neighbour(v) {
                let k = if cell(p.board, nbr(v, 0)) == Stone::Empty {
                    0int
                } else if cell(p.board, nbr(v, 1)) == Stone::Empty {
                    1
                } else if cell(p.board, nbr(v, 2)) == Stone::Empty {
                    2
                } else {
                    3
                };
                let e = 4 * v + k;
                assert(e / 4 == v && e % 4 == k);
                assert(active(pl.board, pl.head, s, e));
                lemma_lsum_some(pl.board, pl.head, s, e, num_incidences());
            } else if p.joins_safe_string(stone, nbr(v, 0)) || p.joins_safe_string(stone, nbr(v, 1)) || p.joins_safe_string(stone, nbr(v, 2))
                || p.joins_safe_string(stone, nbr(v, 3)) {
                let k = if p.joins_safe_string(stone, nbr(v, 0)) {
                    0int
                } else if p.joins_safe_string(stone, nbr(v, 1)) {
                    1
                } else if p.joins_safe_string(stone, nbr(v, 2)) {
                    2
                } else {
                    3
                };
                let n = nbr(v, k);
                let ht = p.head[n];
                assert(p.has_stone(n));
                assert(p.head[ht] == ht && p.has_stone(ht));
                lemma_base_nonnegative_total(p, ht);
                assert(variance(p.board, p.head, ht, num_incidences()) != 0);
                if forall|e: int| 0 <= e < num_incidences() && active(p.board, p.head, ht, e) ==> target(e) == v {
                    lemma_single_target(p.board, p.head, ht, v, num_incidences());
                    assert(false);
                }
                let e = choose|e: int| 0 <= e < num_incidences() && active(p.board, p.head, ht, e) && target(e) != v;
                let w = e / 4;
                assert(p.friend_head_upto(stone, v, ht, 4));
                assert(heads[w] == s);
                assert(active(pl.board, pl.head, s, e));
                lemma_lsum_some(pl.board, pl.head, s, e, num_incidences());
            } else {
                let k = if p.captures_string(stone, nbr(v, 0)) {
                    0int
                } else if p.captures_string(stone, nbr(v, 1)) {
                    1
                } else if p.captures_string(stone, nbr(v, 2)) {
                    2
                } else {
                    3
                };
                assert(p.captures_string(stone, nbr(v, k)));
                let n = nbr(v, k);
                let ht = p.head[n];
                assert(p.has_stone(n));
                assert(p.head[ht] == ht && p.has_stone(ht) && p.board[ht] == opp);
                lemma_base_nonnegative_total(p, ht);
                assert(variance(p.board, p.head, ht, num_incidences()) == 0);
                lemma_variance(p.board, p.head, ht, num_incidences());
                let e0 = 4 * n + back(k);
                assert(e0 / 4 == n && e0 % 4 == back(k));
                assert(target(e0) == v);
                assert(active(p.board, p.head, ht, e0));
                assert(!p.friend_head_upto(stone, v, ht, 4)) by {
                    assert forall|j: int| 0 <= j < 4 && cell(p.board, nbr(v, j)) == stone implies p.head_of(nbr(v, j)) != ht by {
                        let u = nbr(v, j);
                        assert(p.has_stone(u));
                        assert(p.board[p.head[u]] == p.board[u]);
                    }
                }
                assert(ht != s);
                assert forall|e: int| 0 <= e < num_incidences() implies !active(pl.board, pl.head, ht, e) by {
                    if active(pl.board, pl.head, ht, e) {
                        let w = e / 4;
                        assert(heads[w] == ht);
                        assert(p.head[w] == ht);
                        assert(target(e) != v);
                        assert(active(p.board, p.head, ht, e));
                        assert(target(e) == target(e0));
                    }
                }
                lemma_lsum_none(pl.board, pl.head, ht, 0, num_incidences());
                assert(pl.head_of(n) == ht);
                assert(pl.summary(ht, 0) == 0);
                assert(doomed_at(pl, stone, v, 0, k));
                assert(doomed(pl, stone, v, 0));
            }
        } else {
            assert(x != v);
            assert(!p.friend_head_upto(stone, v, p.head[x], 4));
            assert(p.head[x] == x);
            assert(p.has_stone(x));
            lemma_base_nonnegative_total(p, x);
            assert(p.summary(x, 0) > 0);
            let e = lemma_lsum_witness(p.board, p.head, x, num_incidences());
            let w = e / 4;
            let k = e % 4;
            assert(0 <= k < 4);
            assert(p.head[w] == x);
            assert(p.has_stone(w)) by {
                if !p.has_stone(w) {
                    assert(p.head[w] == w);
                }
            }
            assert(p.board[w] == p.board[x]);
            assert(heads[w] == x);
            if target(e) == v {
                assert(nbr(v, back(k)) == w);
                if p.board[x] == opp {
                    assert(watched_at(pl, stone, v, 0, back(k), x));
                    assert(watched(pl, stone, v, 0, x));
                } else {
                    assert(p.board[w] == stone);
                    assert(p.friend_head_upto(stone, v, x, 4));
                    assert(false);
                }
            } else {
                assert(active(pl.board, pl.head, x, e));
                lemma_lsum_some(pl.board, pl.head, x, e, num_incidences());
                assert(on_board(p.size, x));
            }
        }
    }
}

/// Whether the strings are maximal depends on the stones and the heads
/// alone.
pub proof fn lemma_maximal_frame(left: Position, right: Position)
    requires
        left.board == right.board,
        left.head == right.head,
        left.valid_maximal(),
    ensures
        right.valid_maximal(),
{
    assert forall|u: int, k: int| 0 <= u < 441 && 0 <= k < 4 && right.has_stone(u) && cell(right.board, #[trigger] nbr(u, k)) == right.board[u] implies right.head_of(
        nbr(u, k),
    ) == right.head[u] by {
        assert(left.has_stone(u));
        assert(left.head_of(nbr(u, k)) == left.head[u]);
    }
}

/// After a stone of `stone` has joined its neighbours with the heads
/// `heads` and has been placed at `v`, the strings are maximal again.
pub proof fn lemma_placed_maximal(p: Position, stone: Stone, v: int, heads: Seq<int>)
    requires
        p.valid_board(),
        p.valid_strings(),
        p.valid_maximal(),
        on_board(p.size, v),
        p.board[v] == Stone::Empty,
        stone.is_color(),
        heads.len() == 441,
        forall|w: int| 0 <= w < 441 ==> #[trigger] heads[w] == (if w == v || p.friend_head_upto(stone, v, p.head[w], 4) { heads[v] } else { p.head[w] }),
    ensures
        (Position { board: p.board.update(v, stone), head: heads, ..p }).valid_maximal(),
{
    let pl = Position { board: p.board.update(v, stone), head: heads, ..p };
    crate::vertex::lemma_on_board_interior(p.size, v);
    assert forall|u: int, k: int| 0 <= u < 441 && 0 <= k < 4 && pl.has_stone(u) && cell(pl.board, #[trigger] nbr(u, k)) == pl.board[u] implies pl.head_of(
        nbr(u, k),
    ) == pl.head[u] by {
        let w = nbr(u, k);
        assert(0 <= w < 441) by {
            if !(0 <= w < 441) {
                assert(cell(pl.board, w) == Stone::Border);
            }
        }
        if u == v {
            assert(cell(p.board, nbr(v, k)) == stone);
            assert(p.head_of(w) == p.head[w]);
            assert(p.friend_head_upto(stone, v, p.head[w], 4));
        } else if w == v {
            assert(nbr(v, back(k)) == u);
            assert(0 <= back(k) < 4);
            assert(cell(p.board, nbr(v, back(k))) == stone);
            assert(p.head_of(u) == p.head[u]);
            assert(p.friend_head_upto(stone, v, p.head[u], 4));
        } else {
            assert(p.has_stone(u));
            assert(cell(p.board, nbr(u, k)) == p.board[u]);
            assert(p.head_of(w) == p.head[u]);
        }
    }
}

/// Taking a string off the board leaves the strings maximal.
pub proof fn lemma_removed_maximal(pos: Position, n: int)
    requires
        pos.valid_board(),
        pos.valid_maximal(),
        0 <= n < 441,
    ensures
        pos.removed(n).valid_maximal(),
{
    let new = pos.removed(n);
    let h = pos.head[n];
    assert forall|u: int, k: int| 0 <= u < 441 && 0 <= k < 4 && new.has_stone(u) && cell(new.board, #[trigger] nbr(u, k)) == new.board[u] implies new.head_of(
        nbr(u, k),
    ) == new.head[u] by {
        let w = nbr(u, k);
        assert(pos.has_stone(u) && !pos.in_string(u, h));
        assert(0 <= w < 441) by {
            if !(0 <= w < 441) {
                assert(cell(new.board, w) == Stone::Border);
            }
        }
        assert(!pos.in_string(w, h));
        assert(cell(pos.board, nbr(u, k)) == pos.board[u]);
        assert(pos.head_of(w) == pos.head[u]);
    }
}

/// Examining a neighbour of the stone just placed, and capturing its
/// string if it has no liberty, leaves the strings maximal.
pub proof fn lemma_capture_maximal(pos: Position, stone: Stone, v: int, k: int)
    requires
        pos.valid_board(),
        pos.valid_maximal(),
        22 <= v <= 418,
        0 <= k < 4,
    ensures
        pos.capture_at(stone, v, k).valid_maximal(),
{
    if cell(pos.board, nbr(v, k)) == stone.spec_opponent() && pos.dead(pos.head_of(nbr(v, k))) {
        lemma_removed_maximal(pos, nbr(v, k));
    }
}

} // verus!
