//! Packed coordinates on the bordered board.

use vstd::prelude::*;

verus! {

/// Largest supported board side.
pub const MAX_SIZE: u8 = 19;

/// Side of the virtual board: the largest board and a border cell on each side.
pub const VIRT_SIZE: u8 = 21;

/// Number of cells of the virtual board.
pub const VIRT_LEN: usize = 441;

/// Index of a cell of the virtual board, or the pass move.
#[derive(Eq, Hash, PartialEq, Copy, Clone, Ord, PartialOrd, Debug, Structural)]
pub struct Vertex(pub i16);

/// Index that stands for the move that places no stone.
pub const PASS_INDEX: i16 = -1;

/// Index of the cell in column `x` and row `y`; the border ring has coordinate
/// -1 or 19.
pub open spec fn vertex_index(x: int, y: int) -> int {
    x + 1 + (y + 1) * 21
}

/// True when `v` indexes a cell of the virtual board.
pub open spec fn in_virtual(v: int) -> bool {
    0 <= v < 441
}

/// Column of the cell with index `v`.
pub open spec fn col_of(v: int) -> int {
    v % 21 - 1
}

/// Row of the cell with index `v`.
pub open spec fn row_of(v: int) -> int {
    v / 21 - 1
}

/// True when `v` is a playable cell of a board of side `size`.
pub open spec fn on_board(size: int, v: int) -> bool {
    in_virtual(v) && 0 <= col_of(v) < size && 0 <= row_of(v) < size
}

/// The `k`-th orthogonal neighbour of `v`: left, right, below, above.
pub open spec fn nbr(v: int, k: int) -> int {
    if k == 0 {
        v - 1
    } else if k == 1 {
        v + 1
    } else if k == 2 {
        v - 21
    } else {
        v + 21
    }
}

/// The `k`-th diagonal neighbour of `v`.
pub open spec fn diag(v: int, k: int) -> int {
    if k == 0 {
        v - 22
    } else if k == 1 {
        v - 20
    } else if k == 2 {
        v + 20
    } else {
        v + 22
    }
}

/// Quotient of the division that rounds toward zero.
pub open spec fn trunc_div(a: int, b: int) -> int {
    if a >= 0 {
        a / b
    } else {
        -((-a) / b)
    }
}

/// Remainder of the division that rounds toward zero.
pub open spec fn trunc_rem(a: int, b: int) -> int {
    if a >= 0 {
        a % b
    } else {
        -((-a) % b)
    }
}

/// The indices of a sequence of vertices.
pub open spec fn indices(s: Seq<Vertex>) -> Seq<int> {
    Seq::new(s.len(), |i: int| s[i].0 as int)
}

/// A playable cell and its eight neighbours are cells of the virtual board.
pub proof fn lemma_on_board_interior(size: int, v: int)
    requires
        0 <= size <= 19,
        on_board(size, v),
    ensures
        22 <= v <= 418,
        forall|k: int| 0 <= k < 4 ==> 0 <= #[trigger] nbr(v, k) <= 440,
        forall|k: int| 0 <= k < 4 ==> 0 <= #[trigger] diag(v, k) <= 440,
{
}

impl Vertex {
    /// The vertex at column `x` and row `y`.
    pub fn new(x: i16, y: i16) -> (v: Vertex)
        requires
            i16::MIN <= vertex_index(x as int, y as int) <= i16::MAX,
        ensures
            v.0 == vertex_index(x as int, y as int),
    {
        let wide: i32 = x as i32 + 1 + (y as i32 + 1) * 21;
        Vertex(wide as i16)
    }

    /// Column and row of the vertex. For a cell of the virtual board these are
    /// `col_of` and `row_of`; for a negative index the division rounds toward
    /// zero.
    pub fn to_coords(self) -> (c: (i16, i16))
        ensures
            c.0 == trunc_rem(self.0 as int, 21) - 1,
            c.1 == trunc_div(self.0 as int, 21) - 1,
            self.0 >= 0 ==> c.0 == col_of(self.0 as int) && c.1 == row_of(self.0 as int),
    {
        let v: i32 = self.0 as i32;
        if v >= 0 {
            ((v % 21 - 1) as i16, (v / 21 - 1) as i16)
        } else {
            let w: i32 = -v;
            ((-(w % 21) - 1) as i16, (-(w / 21) - 1) as i16)
        }
    }

    /// The vertex as an index into a board vector.
    pub fn as_index(self) -> (i: usize)
        requires
            self.0 >= 0,
        ensures
            i == self.0,
    {
        self.0 as usize
    }

    /// The move that places no stone.
    pub fn pass() -> (v: Vertex)
        ensures
            v.0 == -1,
    {
        Vertex(PASS_INDEX)
    }
}

/// The four orthogonal neighbours of `v`, in the order of `nbr`.
pub fn neighbours(v: Vertex) -> (r: [Vertex; 4])
    requires
        i16::MIN + 21 <= v.0 <= i16::MAX - 21,
    ensures
        forall|k: int| 0 <= k < 4 ==> (#[trigger] r[k]).0 == nbr(v.0 as int, k),
{
    [Vertex(v.0 - 1), Vertex(v.0 + 1), Vertex(v.0 - 21), Vertex(v.0 + 21)]
}

/// The four diagonal neighbours of `v`, in the order of `diag`.
pub fn diag_neighbours(v: Vertex) -> (r: [Vertex; 4])
    requires
        i16::MIN + 22 <= v.0 <= i16::MAX - 22,
    ensures
        forall|k: int| 0 <= k < 4 ==> (#[trigger] r[k]).0 == diag(v.0 as int, k),
{
    [Vertex(v.0 - 22), Vertex(v.0 - 20), Vertex(v.0 + 20), Vertex(v.0 + 22)]
}

/// The index of a cell determines its coordinates.
pub proof fn lemma_coords_of_index(x: int, y: int)
    requires
        -1 <= x <= 19,
        -1 <= y <= 19,
    ensures
        in_virtual(vertex_index(x, y)),
        col_of(vertex_index(x, y)) == x,
        row_of(vertex_index(x, y)) == y,
{
}

/// The coordinates of a cell of the virtual board give back its index.
pub proof fn lemma_index_of_coords(v: int)
    requires
        in_virtual(v),
    ensures
        -1 <= col_of(v) <= 19,
        -1 <= row_of(v) <= 19,
        vertex_index(col_of(v), row_of(v)) == v,
{
}

/// For a cell in column `col` and row `row` of the largest board, the
/// orthogonal neighbours are the cells one column or one row away, and the
/// diagonal neighbours those one column and one row away.
pub proof fn lemma_neighbours_adjacent(col: int, row: int)
    requires
        0 <= col < 19,
        0 <= row < 19,
    ensures
        ({
            let v = vertex_index(col, row);
            &&& nbr(v, 0) == vertex_index(col - 1, row)
            &&& nbr(v, 1) == vertex_index(col + 1, row)
            &&& nbr(v, 2) == vertex_index(col, row - 1)
            &&& nbr(v, 3) == vertex_index(col, row + 1)
            &&& set![nbr(v, 0), nbr(v, 1), nbr(v, 2), nbr(v, 3)] == set![
                vertex_index(col - 1, row),
                vertex_index(col + 1, row),
                vertex_index(col, row - 1),
                vertex_index(col, row + 1),
            ]
            &&& diag(v, 0) == vertex_index(col - 1, row - 1)
            &&& diag(v, 1) == vertex_index(col + 1, row - 1)
            &&& diag(v, 2) == vertex_index(col - 1, row + 1)
            &&& diag(v, 3) == vertex_index(col + 1, row + 1)
            &&& set![diag(v, 0), diag(v, 1), diag(v, 2), diag(v, 3)] == set![
                vertex_index(col - 1, row - 1),
                vertex_index(col + 1, row - 1),
                vertex_index(col - 1, row + 1),
                vertex_index(col + 1, row + 1),
            ]
            &&& forall|k: int| 0 <= k < 4 ==> in_virtual(#[trigger] nbr(v, k))
            &&& forall|k: int| 0 <= k < 4 ==> in_virtual(#[trigger] diag(v, k))
        }),
{
}

} // verus!
