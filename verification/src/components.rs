//! Why the strings stay connected.

use vstd::prelude::*;
use crate::stone::Stone;
use crate::vertex::{nbr, on_board};
use crate::position::{Position, cell, adjacent_cells, step_ok};

verus! {

/// A walk read backwards is a walk.
pub proof fn lemma_walk_reverse(pos: Position, h: int, walk: Seq<int>)
    requires
        pos.is_walk(h, walk),
    ensures
        pos.is_walk(h, walk.reverse()),
        walk.reverse()[0] == walk.last(),
        walk.reverse().last() == walk[0],
{
    let r = walk.reverse();
    let n = walk.len() as int;
    assert(r.len() == n);
    assert forall|i: int| 0 <= i < r.len() implies pos.in_string(#[trigger] r[i], h) by {
        assert(r[i] == walk[n - 1 - i]);
    }
    assert forall|i: int| 0 <= i < r.len() - 1 implies #[trigger] step_ok(r, i) by {
        assert(r[i] == walk[n - 1 - i]);
        assert(r[i + 1] == walk[n - 2 - i]);
        assert(step_ok(walk, n - 2 - i));
    }
}

/// Two walks of which the second begins where the first ends make one walk.
pub proof fn lemma_walk_join(pos: Position, h: int, first: Seq<int>, second: Seq<int>)
    requires
        pos.is_walk(h, first),
        pos.is_walk(h, second),
        first.last() == second[0],
    ensures
        pos.is_walk(h, first + second.drop_first()),
        (first + second.drop_first())[0] == first[0],
        (first + second.drop_first()).last() == second.last(),
{
    let w = first + second.drop_first();
    let n = first.len() as int;
    assert forall|i: int| 0 <= i < w.len() implies pos.in_string(#[trigger] w[i], h) by {
        if i < n {
            assert(w[i] == first[i]);
        } else {
            assert(w[i] == second[i - n + 1]);
        }
    }
    assert forall|i: int| 0 <= i < w.len() - 1 implies #[trigger] step_ok(w, i) by {
        if i < n - 1 {
            assert(w[i] == first[i] && w[i + 1] == first[i + 1]);
            assert(step_ok(first, i));
        } else {
            assert(w[i + 1] == second[i - n + 2]);
            if i == n - 1 {
                assert(w[i] == first[n - 1]);
                assert(w[i] == second[0]);
            } else {
                assert(w[i] == second[i - n + 1]);
            }
            assert(step_ok(second, i - n + 1));
        }
    }
}

/// A walk from one stone to its neighbour in the same string.
pub proof fn lemma_walk_step(pos: Position, h: int, a: int, b: int)
    requires
        pos.in_string(a, h),
        pos.in_string(b, h),
        adjacent_cells(a, b),
    ensures
        pos.is_walk(h, seq![a, b]),
{
    let w = seq![a, b];
    assert forall|i: int| 0 <= i < w.len() - 1 implies #[trigger] step_ok(w, i) by {
        assert(w[0] == a && w[1] == b);
    }
}

/// A walk stays a walk in a position in which its cells are stones of the
/// string with head `h2`.
pub proof fn lemma_walk_kept(pos: Position, h: int, walk: Seq<int>, other: Position, h2: int)
    requires
        pos.is_walk(h, walk),
        forall|c: int| pos.in_string(c, h) ==> other.in_string(c, h2),
    ensures
        other.is_walk(h2, walk),
{
    assert forall|i: int| 0 <= i < walk.len() implies other.in_string(#[trigger] walk[i], h2) by {
        assert(pos.in_string(walk[i], h));
    }
}

/// Connection is symmetric and transitive.
pub proof fn lemma_connected_chain(pos: Position, h: int, a: int, b: int, c: int)
    requires
        pos.connected(h, a, b),
        pos.connected(h, c, b),
    ensures
        pos.connected(h, a, c),
        pos.connected(h, b, a),
{
    let w1 = choose|walk: Seq<int>| pos.is_walk(h, walk) && walk[0] == a && #[trigger] walk.last() == b;
    let w2 = choose|walk: Seq<int>| pos.is_walk(h, walk) && walk[0] == c && #[trigger] walk.last() == b;
    lemma_walk_reverse(pos, h, w2);
    lemma_walk_join(pos, h, w1, w2.reverse());
    let w = w1 + w2.reverse().drop_first();
    assert(pos.is_walk(h, w) && w[0] == a && w.last() == c);
    lemma_walk_reverse(pos, h, w1);
    let r = w1.reverse();
    assert(pos.is_walk(h, r) && r[0] == b && r.last() == a);
}

/// A connection stays one in a position in which the stones of the string
/// are stones of the string with head `h2`.
pub proof fn lemma_connected_kept(pos: Position, h: int, a: int, b: int, other: Position, h2: int)
    requires
        pos.connected(h, a, b),
        forall|c: int| pos.in_string(c, h) ==> other.in_string(c, h2),
    ensures
        other.connected(h2, a, b),
{
    let w = choose|walk: Seq<int>| pos.is_walk(h, walk) && walk[0] == a && #[trigger] walk.last() == b;
    lemma_walk_kept(pos, h, w, other, h2);
    assert(other.is_walk(h2, w) && w[0] == a && w.last() == b);
}

/// Neighbouring stones of one string are connected.
pub proof fn lemma_connected_step(pos: Position, h: int, a: int, b: int)
    requires
        pos.in_string(a, h),
        pos.in_string(b, h),
        adjacent_cells(a, b),
    ensures
        pos.connected(h, a, b),
{
    lemma_walk_step(pos, h, a, b);
    let w = seq![a, b];
    assert(pos.is_walk(h, w) && w[0] == a && w.last() == b);
}

/// A stone is connected to itself.
pub proof fn lemma_connected_self(pos: Position, h: int, a: int)
    requires
        pos.in_string(a, h),
    ensures
        pos.connected(h, a, a),
{
    let w = seq![a];
    assert(pos.is_walk(h, w) && w[0] == a && w.last() == a);
}

/// Whether the strings are connected depends on the stones and the heads
/// alone.
pub proof fn lemma_connected_frame(left: Position, right: Position)
    requires
        left.board == right.board,
        left.head == right.head,
        left.valid_connected(),
    ensures
        right.valid_connected(),
{
    assert forall|w: int| 0 <= w < 441 && right.has_stone(w) implies right.connected(#[trigger] right.head[w], w, right.head[w]) by {
        assert(left.has_stone(w));
        assert(left.connected(left.head[w], w, left.head[w]));
        lemma_connected_kept(left, left.head[w], w, left.head[w], right, right.head[w]);
    }
}

/// After a legal move the strings are connected: the stone placed at `v`
/// links the strings that it has joined, and the strings that stay on the
/// board keep their stones.
#[verifier::rlimit(50)]
pub proof fn lemma_play_connected(p: Position, stone: Stone, v: int, heads: Seq<int>, done: Position)
    requires
        p.valid_board(),
        p.valid_strings(),
        p.valid_connected(),
        on_board(p.size, v),
        p.board[v] == Stone::Empty,
        stone.is_color(),
        heads.len() == 441,
        forall|w: int| 0 <= w < 441 ==> #[trigger] heads[w] == (if w == v || p.friend_head_upto(stone, v, p.head[w], 4) { heads[v] } else { p.head[w] }),
        heads[v] == v || p.friend_head_upto(stone, v, heads[v], 4),
        done.board == p.board_after(stone, v),
        done.head.len() == 441,
        forall|w: int| 0 <= w < 441 && done.has_stone(w) ==> #[trigger] done.head[w] == heads[w],
    ensures
        done.valid_connected(),
{
    let s = heads[v];
    let opp = stone.spec_opponent();
    crate::vertex::lemma_on_board_interior(p.size, v);
    assert(p.head[v] == v);
    assert(done.board[v] == stone);
    assert(done.in_string(v, s));
    // the stones of the color played stay on the board
    assert forall|c: int| 0 <= c < 441 && p.board[c] == stone implies done.board[c] == stone by {}
    // the head of the new string is linked to the new stone
    assert(done.connected(s, v, s)) by {
        if s == v {
            lemma_connected_self(done, s, v);
        } else {
            assert(p.friend_head_upto(stone, v, s, 4));
            let k = if cell(p.board, nbr(v, 0)) == stone && p.head_of(nbr(v, 0)) == s {
                0int
            } else if cell(p.board, nbr(v, 1)) == stone && p.head_of(nbr(v, 1)) == s {
                1
            } else if cell(p.board, nbr(v, 2)) == stone && p.head_of(nbr(v, 2)) == s {
                2
            } else {
                3
            };
            let n = nbr(v, k);
            assert(p.in_string(n, s));
            assert(p.connected(s, n, s));
            assert forall|c: int| p.in_string(c, s) implies done.in_string(c, s) by {
                assert(p.board[c] == p.board[s] && p.board[s] == p.board[n]);
                assert(heads[c] == s);
            }
            lemma_connected_kept(p, s, n, s, done, s);
            lemma_connected_step(done, s, v, n);
            // v to n, and n to s
            let w1 = choose|walk: Seq<int>| done.is_walk(s, walk) && walk[0] == v && #[trigger] walk.last() == n;
            let w2 = choose|walk: Seq<int>| done.is_walk(s, walk) && walk[0] == n && #[trigger] walk.last() == s;
            lemma_walk_join(done, s, w1, w2);
            let w = w1 + w2.drop_first();
            assert(done.is_walk(s, w) && w[0] == v && w.last() == s);
        }
    }
    assert forall|w: int| 0 <= w < 441 && done.has_stone(w) implies done.connected(#[trigger] done.head[w], w, done.head[w]) by {
        if w == v {
        } else {
            assert(p.has_stone(w));
            let h = p.head[w];
            assert(p.head[h] == h && p.has_stone(h) && p.board[h] == p.board[w]);
            assert(p.connected(h, w, h));
            if p.board[w] == stone && p.friend_head_upto(stone, v, h, 4) {
                // a string that the new stone has joined
                assert(heads[w] == s);
                let k = if cell(p.board, nbr(v, 0)) == stone && p.head_of(nbr(v, 0)) == h {
                    0int
                } else if cell(p.board, nbr(v, 1)) == stone && p.head_of(nbr(v, 1)) == h {
                    1
                } else if cell(p.board, nbr(v, 2)) == stone && p.head_of(nbr(v, 2)) == h {
                    2
                } else {
                    3
                };
                let n = nbr(v, k);
                assert(p.in_string(n, h));
                assert(p.connected(h, n, h));
                lemma_connected_chain(p, h, w, h, n);
                assert forall|c: int| p.in_string(c, h) implies done.in_string(c, s) by {
                    assert(p.board[c] == p.board[h]);
                    assert(heads[c] == s);
                }
                lemma_connected_kept(p, h, w, n, done, s);
                assert(done.in_string(n, s));
                lemma_connected_step(done, s, v, n);
                lemma_connected_chain(done, s, v, n, v);
                // w to n, n to v, v to s
                let w1 = choose|walk: Seq<int>| done.is_walk(s, walk) && walk[0] == w && #[trigger] walk.last() == n;
                let w2 = choose|walk: Seq<int>| done.is_walk(s, walk) && walk[0] == n && #[trigger] walk.last() == v;
                let w3 = choose|walk: Seq<int>| done.is_walk(s, walk) && walk[0] == v && #[trigger] walk.last() == s;
                lemma_walk_join(done, s, w1, w2);
                let w12 = w1 + w2.drop_first();
                lemma_walk_join(done, s, w12, w3);
                let all = w12 + w3.drop_first();
                assert(done.is_walk(s, all) && all[0] == w && all.last() == s);
            } else {
                // a string that the move has left as it was
                assert(heads[w] == h) by {
                    if p.friend_head_upto(stone, v, h, 4) {
                        assert forall|j: int| 0 <= j < 4 && cell(p.board, nbr(v, j)) == stone && p.head_of(nbr(v, j)) == h implies p.board[h] == stone by {
                            let u = nbr(v, j);
                            assert(p.has_stone(u));
                            assert(p.board[p.head[u]] == p.board[u]);
                        }
                        assert(false);
                    }
                }
                assert forall|c: int| p.in_string(c, h) implies done.in_string(c, h) by {
                    assert(p.board[c] == p.board[h]);
                    assert(p.head_of(c) == h && p.head_of(w) == h);
                    assert(p.taken_by(stone, v, c) == p.taken_by(stone, v, w));
                    assert(done.board[c] == p.board[c]);
                    assert(heads[c] == h);
                }
                lemma_connected_kept(p, h, w, h, done, h);
            }
        }
    }
}

/// The stones of a walk over stones of one color belong to one string.
pub proof fn lemma_walk_in_one_string(pos: Position, walk: Seq<int>, i: int)
    requires
        pos.valid_board(),
        pos.valid_maximal(),
        pos.is_color_walk(walk),
        0 <= i < walk.len(),
    ensures
        pos.head[walk[i]] == pos.head[walk[0]],
    decreases i,
{
    if i > 0 {
        lemma_walk_in_one_string(pos, walk, i - 1);
        let a = walk[i - 1];
        let b = walk[i];
        assert(step_ok(walk, i - 1));
        assert(pos.has_stone(a) && pos.has_stone(b));
        assert(pos.board[a] == pos.board[b]);
        let k = if b == nbr(a, 0) {
            0int
        } else if b == nbr(a, 1) {
            1
        } else if b == nbr(a, 2) {
            2
        } else {
            3
        };
        assert(cell(pos.board, nbr(a, k)) == pos.board[a]);
        assert(pos.head_of(nbr(a, k)) == pos.head[a]);
    }
}

/// The strings are the sets of stones that hang together: two stones
/// belong to one string exactly when a walk over neighbouring stones of
/// one color leads from the one to the other.
pub proof fn lemma_strings_are_components(pos: Position, a: int, b: int)
    requires
        pos.valid(),
        pos.has_stone(a),
        pos.has_stone(b),
    ensures
        pos.head[a] == pos.head[b] <==> pos.joined_by_stones(a, b),
{
    let h = pos.head[a];
    if pos.head[a] == pos.head[b] {
        assert(pos.connected(h, a, h));
        assert(pos.connected(h, b, h));
        lemma_connected_chain(pos, h, a, h, b);
        let w = choose|walk: Seq<int>| pos.is_walk(h, walk) && walk[0] == a && #[trigger] walk.last() == b;
        assert(pos.is_color_walk(w)) by {
            assert forall|i: int| 0 <= i < w.len() implies pos.has_stone(#[trigger] w[i]) && pos.board[w[i]] == pos.board[w[0]] by {
                assert(pos.in_string(w[i], h));
                assert(pos.in_string(w[0], h));
                assert(pos.board[pos.head[w[i]]] == pos.board[w[i]]);
                assert(pos.board[pos.head[w[0]]] == pos.board[w[0]]);
            }
        }
        assert(pos.is_color_walk(w) && w[0] == a && w.last() == b);
    }
    if pos.joined_by_stones(a, b) {
        let w = choose|walk: Seq<int>| pos.is_color_walk(walk) && walk[0] == a && #[trigger] walk.last() == b;
        lemma_walk_in_one_string(pos, w, w.len() - 1);
    }
}

} // verus!
