//! Facts about the pseudo-liberty counters of a position.

use vstd::prelude::*;
use crate::stone::Stone;
use crate::vertex::nbr;
use crate::position::{cell, weight, incidence, lsum, total, cell_liberties, num_incidences};

verus! {

/// The direction that leads back from the `k`-th neighbour.
pub open spec fn back(k: int) -> int {
    if k == 0 {
        1
    } else if k == 1 {
        0
    } else if k == 2 {
        3
    } else {
        2
    }
}

/// The cell that the pair `e` of a cell and a direction points to.
pub open spec fn target(e: int) -> int {
    nbr(e / 4, e % 4)
}

/// The pair `e` counts for the string with head `h`.
pub open spec fn active(board: Seq<Stone>, head: Seq<int>, h: int, e: int) -> bool {
    0 <= e / 4 < head.len() && head[e / 4] == h && cell(board, target(e)) == Stone::Empty
}

/// What the `k`-th neighbour of `v` adds to the counter of `h` below `n`
/// for its neighbour `v`.
pub open spec fn adjacent_term(head: Seq<int>, h: int, v: int, p: int, k: int, n: int) -> int {
    let u = nbr(v, k);
    if 0 <= u < head.len() && 4 * u + back(k) < n && head[u] == h {
        weight(v, p)
    } else {
        0
    }
}

/// What the neighbours of `v` add to the counter of `h` below `n` for `v`.
pub open spec fn adjacent_upto(head: Seq<int>, h: int, v: int, p: int, n: int) -> int {
    adjacent_term(head, h, v, p, 0, n) + adjacent_term(head, h, v, p, 1, n) + adjacent_term(head, h, v, p, 2, n)
        + adjacent_term(head, h, v, p, 3, n)
}

/// What the first directions of cell `w`, those whose pair lies below `n`,
/// add to a counter.
pub open spec fn cell_liberties_upto(board: Seq<Stone>, w: int, p: int, n: int) -> int {
    (if 4 * w < n && cell(board, nbr(w, 0)) == Stone::Empty { weight(nbr(w, 0), p) } else { 0 })
    + (if 4 * w + 1 < n && cell(board, nbr(w, 1)) == Stone::Empty { weight(nbr(w, 1), p) } else { 0 })
    + (if 4 * w + 2 < n && cell(board, nbr(w, 2)) == Stone::Empty { weight(nbr(w, 2), p) } else { 0 })
    + (if 4 * w + 3 < n && cell(board, nbr(w, 3)) == Stone::Empty { weight(nbr(w, 3), p) } else { 0 })
}

/// Largest weight of a cell of the virtual board.
pub open spec fn max_weight(p: int) -> int {
    if p == 0 {
        1
    } else if p == 1 {
        440
    } else {
        193600
    }
}

pub proof fn lemma_weight_bounds(u: int, p: int)
    requires
        0 <= u <= 440,
    ensures
        0 <= weight(u, p) <= max_weight(p),
{
    assert(0 <= u * u <= 193600) by (nonlinear_arith)
        requires
            0 <= u <= 440,
    ;
}

/// An incidence is zero or the weight of a cell of the virtual board.
pub proof fn lemma_incidence_bounds(board: Seq<Stone>, head: Seq<int>, h: int, p: int, e: int)
    requires
        board.len() == 441,
    ensures
        0 <= incidence(board, head, h, p, e) <= max_weight(p),
        p == 0 ==> (incidence(board, head, h, p, e) == 1 <==> active(board, head, h, e)),
        active(board, head, h, e) ==> incidence(board, head, h, p, e) == weight(target(e), p) && 0 <= target(e) <= 440,
        !active(board, head, h, e) ==> incidence(board, head, h, p, e) == 0,
{
    if active(board, head, h, e) {
        lemma_weight_bounds(target(e), p);
    }
}

/// A counter lies between zero and the number of pairs times the largest
/// weight.
pub proof fn lemma_lsum_bounds(board: Seq<Stone>, head: Seq<int>, h: int, p: int, n: int)
    requires
        board.len() == 441,
        0 <= n,
    ensures
        0 <= lsum(board, head, h, p, n) <= n * max_weight(p),
    decreases n,
{
    if n > 0 {
        lemma_lsum_bounds(board, head, h, p, n - 1);
        lemma_incidence_bounds(board, head, h, p, n - 1);
        assert(n * max_weight(p) == (n - 1) * max_weight(p) + max_weight(p)) by (nonlinear_arith);
    }
}

/// The bounds of the three counters in numbers.
pub proof fn lemma_total_bounds(board: Seq<Stone>, head: Seq<int>, h: int)
    requires
        board.len() == 441,
    ensures
        0 <= total(board, head, h, 0) <= 1764,
        0 <= total(board, head, h, 1) <= 776160,
        0 <= total(board, head, h, 2) <= 341510400,
{
    lemma_lsum_bounds(board, head, h, 0, 1764);
    lemma_lsum_bounds(board, head, h, 1, 1764);
    lemma_lsum_bounds(board, head, h, 2, 1764);
}

/// Counters over incidences that agree are equal.
pub proof fn lemma_lsum_same(b1: Seq<Stone>, h1: Seq<int>, b2: Seq<Stone>, h2: Seq<int>, h: int, p: int, n: int)
    requires
        forall|e: int| 0 <= e < n ==> incidence(b1, h1, h, p, e) == incidence(b2, h2, h, p, e),
    ensures
        lsum(b1, h1, h, p, n) == lsum(b2, h2, h, p, n),
    decreases n,
{
    if n > 0 {
        lemma_lsum_same(b1, h1, b2, h2, h, p, n - 1);
    }
}

/// Counters over incidences that do not shrink do not shrink.
pub proof fn lemma_lsum_monotone(b1: Seq<Stone>, h1: Seq<int>, b2: Seq<Stone>, h2: Seq<int>, h: int, p: int, n: int)
    requires
        forall|e: int| 0 <= e < n ==> incidence(b1, h1, h, p, e) <= incidence(b2, h2, h, p, e),
    ensures
        lsum(b1, h1, h, p, n) <= lsum(b2, h2, h, p, n),
    decreases n,
{
    if n > 0 {
        lemma_lsum_monotone(b1, h1, b2, h2, h, p, n - 1);
    }
}

/// A string none of whose pairs counts has zero counters.
pub proof fn lemma_lsum_none(board: Seq<Stone>, head: Seq<int>, h: int, p: int, n: int)
    requires
        forall|e: int| 0 <= e < n ==> !active(board, head, h, e),
    ensures
        lsum(board, head, h, p, n) == 0,
    decreases n,
{
    if n > 0 {
        lemma_lsum_none(board, head, h, p, n - 1);
        assert(!active(board, head, h, n - 1));
    }
}

/// A pair that counts makes the count positive.
pub proof fn lemma_lsum_some(board: Seq<Stone>, head: Seq<int>, h: int, e: int, n: int)
    requires
        board.len() == 441,
        0 <= e < n,
        active(board, head, h, e),
    ensures
        lsum(board, head, h, 0, n) >= 1,
    decreases n,
{
    lemma_lsum_bounds(board, head, h, 0, n - 1);
    if e < n - 1 {
        lemma_lsum_some(board, head, h, e, n - 1);
        lemma_incidence_bounds(board, head, h, 0, n - 1);
    }
}

/// A positive count has a pair that counts.
pub proof fn lemma_lsum_witness(board: Seq<Stone>, head: Seq<int>, h: int, n: int) -> (e: int)
    requires
        board.len() == 441,
        lsum(board, head, h, 0, n) > 0,
    ensures
        0 <= e < n,
        active(board, head, h, e),
    decreases n,
{
    if n <= 0 {
        0
    } else if active(board, head, h, n - 1) {
        n - 1
    } else {
        lemma_lsum_witness(board, head, h, n - 1)
    }
}

/// Filling or clearing the cell `v` changes each counter by what the
/// neighbours of `v` in that string count for `v`.
pub proof fn lemma_lsum_cell(with_empty: Seq<Stone>, with_stone: Seq<Stone>, head: Seq<int>, h: int, p: int, v: int, n: int)
    requires
        with_empty.len() == 441,
        with_stone.len() == 441,
        head.len() == 441,
        0 <= v < 441,
        0 <= n <= 1764,
        with_empty[v] == Stone::Empty,
        with_stone[v] != Stone::Empty,
        forall|u: int| 0 <= u < 441 && u != v ==> with_empty[u] == with_stone[u],
    ensures
        lsum(with_empty, head, h, p, n) == lsum(with_stone, head, h, p, n) + adjacent_upto(head, h, v, p, n),
    decreases n,
{
    if n > 0 {
        lemma_lsum_cell(with_empty, with_stone, head, h, p, v, n - 1);
        let e = n - 1;
        let w = e / 4;
        let k = e % 4;
        assert(0 <= k < 4);
        assert(0 <= w < 441);
        if nbr(w, k) == v {
            assert(nbr(v, back(k)) == w);
            assert(back(back(k)) == k);
            assert(4 * nbr(v, back(k)) + back(back(k)) == e);
        } else {
            assert(cell(with_empty, nbr(w, k)) == cell(with_stone, nbr(w, k)));
        }
    }
}

/// Moving every cell of the string `from` to the string `to` adds the
/// counters of `from` to those of `to`, and leaves `from` with none.
pub proof fn lemma_lsum_relabel(board: Seq<Stone>, head: Seq<int>, head2: Seq<int>, from: int, to: int, h: int, p: int, n: int)
    requires
        head.len() == head2.len(),
        from != to,
        forall|w: int| 0 <= w < head.len() ==> head2[w] == (if head[w] == from { to } else { head[w] }),
    ensures
        h == to ==> lsum(board, head2, h, p, n) == lsum(board, head, to, p, n) + lsum(board, head, from, p, n),
        h == from ==> lsum(board, head2, h, p, n) == 0,
        h != to && h != from ==> lsum(board, head2, h, p, n) == lsum(board, head, h, p, n),
    decreases n,
{
    if n > 0 {
        lemma_lsum_relabel(board, head, head2, from, to, h, p, n - 1);
    }
}

/// The counters of a string with the single cell `w`.
pub proof fn lemma_lsum_single(board: Seq<Stone>, head: Seq<int>, h: int, w: int, p: int, n: int)
    requires
        0 <= w < head.len(),
        head[w] == h,
        forall|u: int| 0 <= u < head.len() && u != w ==> head[u] != h,
    ensures
        lsum(board, head, h, p, n) == cell_liberties_upto(board, w, p, n),
    decreases n,
{
    if n > 0 {
        lemma_lsum_single(board, head, h, w, p, n - 1);
        let e = n - 1;
        assert(0 <= e % 4 < 4);
    }
}

/// Moving the single cell `w` to another string moves what its empty
/// neighbours count.
pub proof fn lemma_lsum_move(board: Seq<Stone>, head: Seq<int>, w: int, to: int, h: int, p: int, n: int)
    requires
        0 <= w < head.len(),
        head[w] != to,
    ensures
        h == to ==> lsum(board, head.update(w, to), h, p, n) == lsum(board, head, h, p, n) + cell_liberties_upto(board, w, p, n),
        h == head[w] ==> lsum(board, head.update(w, to), h, p, n) == lsum(board, head, h, p, n) - cell_liberties_upto(board, w, p, n),
        h != to && h != head[w] ==> lsum(board, head.update(w, to), h, p, n) == lsum(board, head, h, p, n),
    decreases n,
{
    if n > 0 {
        lemma_lsum_move(board, head, w, to, h, p, n - 1);
        let e = n - 1;
        assert(0 <= e % 4 < 4);
    }
}

/// With all pairs counted, the partial sum over a cell is the whole.
pub proof fn lemma_cell_liberties_full(board: Seq<Stone>, w: int, p: int)
    requires
        0 <= w < 441,
    ensures
        cell_liberties_upto(board, w, p, num_incidences()) == cell_liberties(board, w, p),
{
}

// ----- the single-liberty test -----

/// The count times the square of `x`, less twice the sum times `x`, plus
/// the sum of squares: the sum over the pairs of the squared distance of
/// the target from `x`.
pub open spec fn spread(board: Seq<Stone>, head: Seq<int>, h: int, x: int, n: int) -> int {
    lsum(board, head, h, 0, n) * (x * x) - 2 * (lsum(board, head, h, 1, n) * x) + lsum(board, head, h, 2, n)
}

/// The spread around `x` is never negative, and is zero only if every pair
/// that counts points to `x`.
pub proof fn lemma_spread(board: Seq<Stone>, head: Seq<int>, h: int, x: int, n: int)
    requires
        board.len() == 441,
        0 <= n,
    ensures
        spread(board, head, h, x, n) >= 0,
        spread(board, head, h, x, n) == 0 ==> forall|e: int| 0 <= e < n && active(board, head, h, e) ==> target(e) == x,
    decreases n,
{
    if n > 0 {
        lemma_spread(board, head, h, x, n - 1);
        let e = n - 1;
        lemma_incidence_bounds(board, head, h, 0, e);
        lemma_incidence_bounds(board, head, h, 1, e);
        lemma_incidence_bounds(board, head, h, 2, e);
        let n0 = lsum(board, head, h, 0, n - 1);
        let s0 = lsum(board, head, h, 1, n - 1);
        let q0 = lsum(board, head, h, 2, n - 1);
        if active(board, head, h, e) {
            let t = target(e);
            assert(spread(board, head, h, x, n) == spread(board, head, h, x, n - 1) + (x - t) * (x - t)) by (nonlinear_arith)
                requires
                    spread(board, head, h, x, n) == (n0 + 1) * (x * x) - 2 * ((s0 + t) * x) + (q0 + t * t),
                    spread(board, head, h, x, n - 1) == n0 * (x * x) - 2 * (s0 * x) + q0,
            ;
            assert((x - t) * (x - t) >= 0) by (nonlinear_arith);
            assert((x - t) * (x - t) == 0 ==> x == t) by (nonlinear_arith);
        } else {
            assert(spread(board, head, h, x, n) == spread(board, head, h, x, n - 1));
        }
    }
}

/// The count times the sum of squares, less the square of the sum.
pub open spec fn variance(board: Seq<Stone>, head: Seq<int>, h: int, n: int) -> int {
    lsum(board, head, h, 0, n) * lsum(board, head, h, 2, n) - lsum(board, head, h, 1, n) * lsum(board, head, h, 1, n)
}

/// The variance is never negative, and is zero only if all pairs that
/// count point to one cell.
pub proof fn lemma_variance(board: Seq<Stone>, head: Seq<int>, h: int, n: int)
    requires
        board.len() == 441,
        0 <= n,
    ensures
        variance(board, head, h, n) >= 0,
        variance(board, head, h, n) == 0 ==> forall|e1: int, e2: int|
            0 <= e1 < n && 0 <= e2 < n && active(board, head, h, e1) && active(board, head, h, e2) ==> target(e1) == target(e2),
    decreases n,
{
    if n > 0 {
        lemma_variance(board, head, h, n - 1);
        let e = n - 1;
        lemma_incidence_bounds(board, head, h, 0, e);
        lemma_incidence_bounds(board, head, h, 1, e);
        lemma_incidence_bounds(board, head, h, 2, e);
        let n0 = lsum(board, head, h, 0, n - 1);
        let s0 = lsum(board, head, h, 1, n - 1);
        let q0 = lsum(board, head, h, 2, n - 1);
        if active(board, head, h, e) {
            let t = target(e);
            lemma_spread(board, head, h, t, n - 1);
            assert(variance(board, head, h, n) == variance(board, head, h, n - 1) + spread(board, head, h, t, n - 1)) by (nonlinear_arith)
                requires
                    variance(board, head, h, n) == (n0 + 1) * (q0 + t * t) - (s0 + t) * (s0 + t),
                    variance(board, head, h, n - 1) == n0 * q0 - s0 * s0,
                    spread(board, head, h, t, n - 1) == n0 * (t * t) - 2 * (s0 * t) + q0,
            ;
            if variance(board, head, h, n) == 0 {
                assert(forall|e1: int| 0 <= e1 < n && active(board, head, h, e1) ==> target(e1) == t);
            }
        } else {
            assert(variance(board, head, h, n) == variance(board, head, h, n - 1));
        }
    }
}

/// If every pair that counts points to `x`, the sum is the count times
/// `x`, the sum of squares the count times the square of `x`, and the
/// variance is zero.
pub proof fn lemma_single_target(board: Seq<Stone>, head: Seq<int>, h: int, x: int, n: int)
    requires
        board.len() == 441,
        0 <= n,
        forall|e: int| 0 <= e < n && active(board, head, h, e) ==> target(e) == x,
    ensures
        lsum(board, head, h, 1, n) == lsum(board, head, h, 0, n) * x,
        lsum(board, head, h, 2, n) == lsum(board, head, h, 0, n) * (x * x),
        variance(board, head, h, n) == 0,
    decreases n,
{
    if n > 0 {
        lemma_single_target(board, head, h, x, n - 1);
        let e = n - 1;
        lemma_incidence_bounds(board, head, h, 0, e);
        lemma_incidence_bounds(board, head, h, 1, e);
        lemma_incidence_bounds(board, head, h, 2, e);
        let n0 = lsum(board, head, h, 0, n - 1);
        if active(board, head, h, e) {
            assert(target(e) == x);
            assert((n0 + 1) * x == n0 * x + x) by (nonlinear_arith);
            assert((n0 + 1) * (x * x) == n0 * (x * x) + x * x) by (nonlinear_arith);
        }
    }
    let c = lsum(board, head, h, 0, n);
    assert(c * (c * (x * x)) - (c * x) * (c * x) == 0) by (nonlinear_arith);
}

} // verus!
