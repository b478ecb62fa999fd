//! What ties the cached values of a board to its position.

use vstd::prelude::*;
use crate::stone::Stone;
use crate::string::{String, StringView};
use crate::vertex::{in_virtual, on_board, nbr};
use crate::position::{Position, total, base, cell_liberties, sentinel, num_incidences, weight};
use crate::sums::{lemma_lsum_single, lemma_cell_liberties_full, lemma_weight_bounds};

verus! {

/// The counters of the strings as mathematical values.
pub open spec fn string_views(s: Seq<String>) -> Seq<StringView> {
    Seq::new(s.len(), |i: int| s[i]@)
}

/// The successor in a cyclic list of `len` entries.
pub open spec fn wrap_next(i: int, len: int) -> int {
    if i + 1 >= len {
        0
    } else {
        i + 1
    }
}

/// The link of the `i`-th stone of the chain `c` leads to the next stone of
/// the chain, that of the last stone to the first.
pub open spec fn link_ok(c: Seq<int>, next: Seq<int>, i: int) -> bool {
    0 <= c[i] < next.len() && next[c[i]] == c[wrap_next(i, c.len() as int)]
}

/// The links follow the chain `c` and close it.
pub open spec fn chain_linked(c: Seq<int>, next: Seq<int>) -> bool {
    forall|i: int| 0 <= i < c.len() ==> #[trigger] link_ok(c, next, i)
}

/// The links follow each chain and close it.
pub open spec fn links_ok(pos: Position, next: Seq<int>) -> bool {
    forall|h: int| 0 <= h < 441 && pos.has_stone(h) && pos.head[h] == h ==> chain_linked(#[trigger] pos.chains[h], next)
}

/// What the neighbours of `v` from the `k0`-th on add, for `v`, to the
/// counter of power `p` of the string `h`.
pub open spec fn pending(heads: Seq<int>, h: int, v: int, p: int, k0: int) -> int {
    (if k0 <= 0 && in_virtual(nbr(v, 0)) && heads[nbr(v, 0)] == h { weight(v, p) } else { 0 })
    + (if k0 <= 1 && in_virtual(nbr(v, 1)) && heads[nbr(v, 1)] == h { weight(v, p) } else { 0 })
    + (if k0 <= 2 && in_virtual(nbr(v, 2)) && heads[nbr(v, 2)] == h { weight(v, p) } else { 0 })
    + (if k0 <= 3 && in_virtual(nbr(v, 3)) && heads[nbr(v, 3)] == h { weight(v, p) } else { 0 })
}

/// The counters of every head are those of its string, but for what the
/// neighbours of `v` from the `k0`-th on count for `v`, which is still to
/// be taken off (`sign` 1) or to be added (`sign` -1).
pub open spec fn lagged_ok(size: int, board: Seq<Stone>, heads: Seq<int>, strings: Seq<StringView>, v: int, k0: int, sign: int) -> bool {
    forall|h: int|
        0 <= h < 441 && heads[h] == h ==> {
            &&& (#[trigger] strings[h]).count == base(size, h, 0) + total(board, heads, h, 0) + sign * pending(heads, h, v, 0, k0)
            &&& strings[h].sum == base(size, h, 1) + total(board, heads, h, 1) + sign * pending(heads, h, v, 1, k0)
            &&& strings[h].sum_squared == base(size, h, 2) + total(board, heads, h, 2) + sign * pending(heads, h, v, 2, k0)
        }
}

/// The counters of every head are those of its string.
pub open spec fn counters_ok(pos: Position, strings: Seq<StringView>) -> bool {
    lagged_ok(pos.size, pos.board, pos.head, strings, 0, 4, 0)
}

/// The strings partition the stones, the links follow the chains, and the
/// heads record color and size.
pub open spec fn structure_ok(pos: Position, next: Seq<int>, strings: Seq<StringView>) -> bool {
    pos.valid_strings() && links_ok(pos, next) && sizes_ok(pos, strings)
}

/// The board has its border, and the list of empty cells, its index and
/// the stone counts agree with the board.
pub open spec fn listing_ok(pos: Position, index: Seq<usize>, num_black: int) -> bool {
    pos.valid_board() && pos.valid_empties() && index_ok(pos, index) && counts_ok(pos, num_black)
}

/// Every head of stones records their color and number; every other head
/// records none.
pub open spec fn sizes_ok(pos: Position, strings: Seq<StringView>) -> bool {
    forall|h: int|
        0 <= h < 441 && pos.head[h] == h ==> if pos.has_stone(h) {
            (#[trigger] strings[h]).num_stones == pos.chains[h].len() && strings[h].color == pos.board[h]
        } else {
            strings[h].num_stones == 0 && strings[h].color == Stone::Empty
        }
}

/// Every empty cell knows its position in the list of empty cells.
pub open spec fn index_ok(pos: Position, index: Seq<usize>) -> bool {
    forall|i: int| 0 <= i < pos.empties.len() ==> 0 <= #[trigger] pos.empties[i] < index.len() && index[pos.empties[i]] == i
}

/// The number of black stones is kept, and the number of white stones is
/// what the black stones and the empty cells leave of the board.
pub open spec fn counts_ok(pos: Position, num_black: int) -> bool {
    &&& num_black == pos.count(Stone::Black)
    &&& pos.count(Stone::White) == pos.size * pos.size - num_black - pos.empties.len()
}

/// In a valid position only the empty cell `v` itself has `v` as its head,
/// so its counters are those of its own empty neighbours.
pub proof fn lemma_empty_cell_summary(pos: Position, v: int, p: int)
    requires
        pos.valid_board(),
        pos.valid_strings(),
        0 <= v < 441,
        !pos.has_stone(v),
    ensures
        total(pos.board, pos.head, v, p) == cell_liberties(pos.board, v, p),
{
    assert forall|u: int| 0 <= u < pos.head.len() && u != v implies pos.head[u] != v by {
        if pos.has_stone(u) {
            let h = pos.head[u];
            assert(pos.board[h] == pos.board[u]);
        }
    }
    lemma_lsum_single(pos.board, pos.head, v, v, p, num_incidences());
    lemma_cell_liberties_full(pos.board, v, p);
}

/// The counters of a border cell never fall below zero.
pub proof fn lemma_base_bounds(size: int, h: int, p: int)
    requires
        0 <= size <= 19,
    ensures
        0 <= base(size, h, p) <= sentinel(p),
{
    if in_virtual(h) && !on_board(size, h) {
        assert forall|k: int| 0 <= k < 4 && on_board(size, #[trigger] nbr(h, k)) implies 0 <= weight(nbr(h, k), p) <= 193600 by {
            lemma_weight_bounds(nbr(h, k), p);
        }
        assert(on_board(size, nbr(h, 0)) ==> 0 <= weight(nbr(h, 0), p) <= 193600);
        assert(on_board(size, nbr(h, 1)) ==> 0 <= weight(nbr(h, 1), p) <= 193600);
        assert(on_board(size, nbr(h, 2)) ==> 0 <= weight(nbr(h, 2), p) <= 193600);
        assert(on_board(size, nbr(h, 3)) ==> 0 <= weight(nbr(h, 3), p) <= 193600);
        if p == 0 {
        }
    }
}

/// In a well-formed partition the head of every cell is its own head.
pub proof fn lemma_head_of_head(pos: Position, u: int)
    requires
        pos.valid_strings(),
        pos.board.len() == 441,
        pos.head.len() == 441,
        0 <= u < 441,
    ensures
        0 <= pos.head[u] < 441,
        pos.head[pos.head[u]] == pos.head[u],
        pos.has_stone(u) ==> pos.has_stone(pos.head[u]) && pos.board[pos.head[u]] == pos.board[u],
        !pos.has_stone(u) ==> pos.head[u] == u,
{
    if pos.has_stone(u) {
        let h = pos.head[u];
        assert(pos.head[h] == h);
    }
}

/// For a playable cell `v`, what its neighbours count for it in all pairs
/// is what is pending from the first neighbour on.
pub proof fn lemma_adjacent_is_pending(heads: Seq<int>, h: int, v: int, p: int)
    requires
        heads.len() == 441,
        22 <= v <= 418,
    ensures
        crate::sums::adjacent_upto(heads, h, v, p, num_incidences()) == pending(heads, h, v, p, 0),
        pending(heads, h, v, p, 4) == 0,
{
}

/// What is pending is never negative and at most four weights.
pub proof fn lemma_pending_bounds(heads: Seq<int>, h: int, v: int, p: int, k0: int)
    requires
        0 <= v <= 440,
    ensures
        0 <= pending(heads, h, v, p, k0) <= 4 * 193600,
{
    lemma_weight_bounds(v, p);
}

/// Whether the strings are well formed depends on the stones, the heads
/// and the chains alone.
pub proof fn lemma_structure_frame(left: Position, right: Position, next: Seq<int>, strings: Seq<StringView>)
    requires
        left.board == right.board,
        left.head == right.head,
        left.chains == right.chains,
        structure_ok(left, next, strings),
    ensures
        structure_ok(right, next, strings),
{
    assert(right.valid_strings()) by {
        assert forall|v: int| 0 <= v < 441 && right.has_stone(v) implies {
            let h = #[trigger] right.head[v];
            &&& 0 <= h < 441
            &&& right.head[h] == h
            &&& right.board[h] == right.board[v]
            &&& right.chains[h].contains(v)
        } by {
            assert(left.has_stone(v));
        }
        assert forall|h: int| 0 <= h < 441 && right.has_stone(h) && right.head[h] == h implies {
            let c = #[trigger] right.chains[h];
            &&& c.len() >= 1
            &&& c[0] == h
            &&& c.no_duplicates()
            &&& forall|i: int| 0 <= i < c.len() ==> 0 <= #[trigger] c[i] < 441 && right.head[c[i]] == h && right.has_stone(c[i])
        } by {
            assert(left.has_stone(h));
            let c = left.chains[h];
            assert forall|i: int| 0 <= i < c.len() implies 0 <= #[trigger] c[i] < 441 && right.head[c[i]] == h && right.has_stone(c[i]) by {
                assert(left.has_stone(c[i]));
            }
        }
    }
    assert(links_ok(right, next)) by {
        assert forall|h: int| 0 <= h < 441 && right.has_stone(h) && right.head[h] == h implies chain_linked(#[trigger] right.chains[h], next) by {
            assert(left.has_stone(h));
        }
    }
    assert(sizes_ok(right, strings)) by {
        assert forall|h: int| 0 <= h < 441 && right.head[h] == h implies if right.has_stone(h) {
            (#[trigger] strings[h]).num_stones == right.chains[h].len() && strings[h].color == right.board[h]
        } else {
            strings[h].num_stones == 0 && strings[h].color == Stone::Empty
        } by {
            assert(left.has_stone(h) == right.has_stone(h));
        }
    }
}

/// Whether every string has a liberty depends on the side, the stones
/// and the heads alone.
pub proof fn lemma_liberties_frame(left: Position, right: Position)
    requires
        left.board == right.board,
        left.head == right.head,
        left.size == right.size,
        left.valid_liberties(),
    ensures
        right.valid_liberties(),
{
    assert forall|h: int| 0 <= h < 441 && right.has_stone(h) && #[trigger] right.head[h] == h implies right.summary(h, 0) > 0 by {
        assert(left.has_stone(h) && left.head[h] == h);
        assert(left.summary(h, 0) > 0);
    }
}

} // verus!
