//! The mathematical model of a Go position and of the rules that change it.

use vstd::prelude::*;
use crate::stone::Stone;
use crate::vertex::{in_virtual, on_board, nbr, diag, vertex_index};

verus! {

/// Number of pairs of a cell of the virtual board and a direction.
pub open spec fn num_incidences() -> int {
    1764
}

/// The stone in cell `u`; everything outside the virtual board is border.
pub open spec fn cell(board: Seq<Stone>, u: int) -> Stone {
    if 0 <= u < board.len() {
        board[u]
    } else {
        Stone::Border
    }
}

/// What a pseudo-liberty at `u` adds to the counter of power `p`: one to
/// the count, `u` to the sum, `u * u` to the sum of squares.
pub open spec fn weight(u: int, p: int) -> int {
    if p == 0 {
        1
    } else if p == 1 {
        u
    } else {
        u * u
    }
}

/// What the pair `e` of a cell and a direction adds to the counter of power
/// `p` of the string with head `h`: the weight of the neighbour if the cell
/// belongs to the string and the neighbour is empty.
pub open spec fn incidence(board: Seq<Stone>, head: Seq<int>, h: int, p: int, e: int) -> int {
    let w = e / 4;
    let k = e % 4;
    if 0 <= w < head.len() && head[w] == h && cell(board, nbr(w, k)) == Stone::Empty {
        weight(nbr(w, k), p)
    } else {
        0
    }
}

/// Sum of the incidences below `n`.
pub open spec fn lsum(board: Seq<Stone>, head: Seq<int>, h: int, p: int, n: int) -> int
    decreases n,
{
    if n <= 0 {
        0
    } else {
        lsum(board, head, h, p, n - 1) + incidence(board, head, h, p, n - 1)
    }
}

/// The counter of power `p` over all pseudo-liberties of the string with
/// head `h`.
pub open spec fn total(board: Seq<Stone>, head: Seq<int>, h: int, p: int) -> int {
    lsum(board, head, h, p, num_incidences())
}

/// What the empty neighbours of the single cell `w` add to a counter.
pub open spec fn cell_liberties(board: Seq<Stone>, w: int, p: int) -> int {
    (if cell(board, nbr(w, 0)) == Stone::Empty { weight(nbr(w, 0), p) } else { 0 })
    + (if cell(board, nbr(w, 1)) == Stone::Empty { weight(nbr(w, 1), p) } else { 0 })
    + (if cell(board, nbr(w, 2)) == Stone::Empty { weight(nbr(w, 2), p) } else { 0 })
    + (if cell(board, nbr(w, 3)) == Stone::Empty { weight(nbr(w, 3), p) } else { 0 })
}

/// The counters that a border cell starts from.
pub open spec fn sentinel(p: int) -> int {
    if p == 0 {
        4
    } else if p == 1 {
        32768
    } else {
        2147483648
    }
}

/// What the playable neighbours of `h` add to a counter when all are empty.
pub open spec fn playable_side(size: int, h: int, p: int) -> int {
    (if on_board(size, nbr(h, 0)) { weight(nbr(h, 0), p) } else { 0 })
    + (if on_board(size, nbr(h, 1)) { weight(nbr(h, 1), p) } else { 0 })
    + (if on_board(size, nbr(h, 2)) { weight(nbr(h, 2), p) } else { 0 })
    + (if on_board(size, nbr(h, 3)) { weight(nbr(h, 3), p) } else { 0 })
}

/// The part of a counter that does not come from pseudo-liberties: nothing
/// for a playable cell, and for a border cell the sentinel less what its
/// playable neighbours add to it on the empty board.
pub open spec fn base(size: int, h: int, p: int) -> int {
    if in_virtual(h) && !on_board(size, h) {
        sentinel(p) - playable_side(size, h, p)
    } else {
        0
    }
}

/// Number of cells below `n` that hold `stone`.
pub open spec fn count_upto(board: Seq<Stone>, stone: Stone, n: int) -> int
    decreases n,
{
    if n <= 0 {
        0
    } else {
        count_upto(board, stone, n - 1) + (if board[n - 1] == stone { 1int } else { 0 })
    }
}

/// The cells `a` and `b` are orthogonal neighbours.
pub open spec fn adjacent_cells(a: int, b: int) -> bool {
    b == nbr(a, 0) || b == nbr(a, 1) || b == nbr(a, 2) || b == nbr(a, 3)
}

/// The cell at `i` of the walk and the next one are neighbours.
pub open spec fn step_ok(walk: Seq<int>, i: int) -> bool {
    adjacent_cells(walk[i], walk[i + 1])
}

/// A position: the stones, the partition of the stones into strings, the
/// list of empty cells, the ko point, the side to move and the moves played.
pub struct Position {
    /// Side of the board.
    pub size: int,
    /// The stone in each cell of the virtual board.
    pub board: Seq<Stone>,
    /// For each cell the cell that names its string; a cell without a stone
    /// names itself.
    pub head: Seq<int>,
    /// For each head of a string of stones its stones in cyclic order,
    /// starting at the head; empty for every other cell.
    pub chains: Seq<Seq<int>>,
    /// The empty playable cells, in the order in which moves are tried.
    pub empties: Seq<int>,
    /// The cell that simple ko forbids, or -1.
    pub ko: int,
    /// The side to move.
    pub to_play: Stone,
    /// The moves played so far, passes included.
    pub history: Seq<int>,
}

/// The cyclic sequence `c` read from position `i` on.
pub open spec fn rotate(c: Seq<int>, i: int) -> Seq<int> {
    c.subrange(i, c.len() as int) + c.subrange(0, i)
}

impl Position {
    /// The counter of power `p` of the string with head `h`.
    pub open spec fn summary(self, h: int, p: int) -> int {
        base(self.size, h, p) + total(self.board, self.head, h, p)
    }

    /// The pseudo-liberty test for a single liberty of the string with head
    /// `h`.
    pub open spec fn in_atari(self, h: int) -> bool {
        self.summary(h, 0) * self.summary(h, 2) == self.summary(h, 1) * self.summary(h, 1)
    }

    /// The string with head `h` has no pseudo-liberty.
    pub open spec fn dead(self, h: int) -> bool {
        self.summary(h, 0) == 0
    }

    /// The head of the string of cell `u`, or `u` itself outside the
    /// virtual board.
    pub open spec fn head_of(self, u: int) -> int {
        if 0 <= u < self.head.len() {
            self.head[u]
        } else {
            u
        }
    }

    /// The stones of the string of `n`, in cyclic order from `n` on.
    pub open spec fn chain_from(self, n: int) -> Seq<int> {
        let c = self.chains[self.head[n]];
        rotate(c, c.index_of(n))
    }

    // ----- validity -----

    /// The sequences have one entry for each cell of the virtual board, and
    /// exactly the cells outside the playable square are border.
    pub open spec fn valid_board(self) -> bool {
        &&& 0 <= self.size <= 19
        &&& self.board.len() == 441
        &&& self.head.len() == 441
        &&& self.chains.len() == 441
        &&& forall|v: int| 0 <= v < 441 ==> ((#[trigger] self.board[v]) == Stone::Border <==> !on_board(self.size, v))
    }

    /// The list of empty cells holds each empty cell once and nothing else.
    pub open spec fn valid_empties(self) -> bool {
        &&& self.empties.no_duplicates()
        &&& forall|i: int| 0 <= i < self.empties.len() ==> in_virtual(#[trigger] self.empties[i]) && self.board[self.empties[i]] == Stone::Empty
        &&& forall|v: int| 0 <= v < 441 && #[trigger] self.board[v] == Stone::Empty ==> self.empties.contains(v)
    }

    /// The cell `v` holds a stone of either color.
    pub open spec fn has_stone(self, v: int) -> bool {
        0 <= v < self.board.len() && self.board[v].is_color()
    }

    /// The strings partition the stones: a cell without a stone is its own
    /// head; the head of a stone is a stone of the same color that heads
    /// itself, and its chain lists the stones of that head once each.
    pub open spec fn valid_strings(self) -> bool {
        &&& forall|v: int| 0 <= v < 441 && !self.has_stone(v) ==> #[trigger] self.head[v] == v
        &&& forall|v: int| 0 <= v < 441 && !(self.has_stone(v) && self.head[v] == v) ==> (#[trigger] self.chains[v]).len() == 0
        &&& forall|v: int| 0 <= v < 441 && self.has_stone(v) ==> {
            let h = #[trigger] self.head[v];
            &&& 0 <= h < 441
            &&& self.head[h] == h
            &&& self.board[h] == self.board[v]
            &&& self.chains[h].contains(v)
        }
        &&& forall|h: int| 0 <= h < 441 && self.has_stone(h) && self.head[h] == h ==> {
            let c = #[trigger] self.chains[h];
            &&& c.len() >= 1
            &&& c[0] == h
            &&& c.no_duplicates()
            &&& forall|i: int| 0 <= i < c.len() ==> 0 <= #[trigger] c[i] < 441 && self.head[c[i]] == h && self.has_stone(c[i])
        }
    }

    /// Every string of stones has a pseudo-liberty.
    pub open spec fn valid_liberties(self) -> bool {
        forall|h: int| 0 <= h < 441 && self.has_stone(h) && #[trigger] self.head[h] == h ==> self.summary(h, 0) > 0
    }

    /// The strings are maximal: neighbouring stones of one color belong to
    /// one string.
    pub open spec fn valid_maximal(self) -> bool {
        forall|u: int, k: int|
            0 <= u < 441 && 0 <= k < 4 && self.has_stone(u) && cell(self.board, #[trigger] nbr(u, k)) == self.board[u] ==> self.head_of(nbr(u, k))
                == self.head[u]
    }

    /// The cells of `walk` are stones of the string with head `h`, each a
    /// neighbour of the next.
    pub open spec fn is_walk(self, h: int, walk: Seq<int>) -> bool {
        &&& walk.len() >= 1
        &&& forall|i: int| 0 <= i < walk.len() ==> self.in_string(#[trigger] walk[i], h)
        &&& forall|i: int| 0 <= i < walk.len() - 1 ==> #[trigger] step_ok(walk, i)
    }

    /// The cells of `walk` are stones of one color, each a neighbour of the
    /// next.
    pub open spec fn is_color_walk(self, walk: Seq<int>) -> bool {
        &&& walk.len() >= 1
        &&& forall|i: int| 0 <= i < walk.len() ==> self.has_stone(#[trigger] walk[i]) && self.board[walk[i]] == self.board[walk[0]]
        &&& forall|i: int| 0 <= i < walk.len() - 1 ==> #[trigger] step_ok(walk, i)
    }

    /// A walk over stones of one color leads from `a` to `b`.
    pub open spec fn joined_by_stones(self, a: int, b: int) -> bool {
        exists|walk: Seq<int>| self.is_color_walk(walk) && walk[0] == a && #[trigger] walk.last() == b
    }

    /// A walk within the string with head `h` leads from `a` to `b`.
    pub open spec fn connected(self, h: int, a: int, b: int) -> bool {
        exists|walk: Seq<int>| self.is_walk(h, walk) && walk[0] == a && #[trigger] walk.last() == b
    }

    /// The strings are connected: from every stone a walk within its
    /// string leads to the head.
    pub open spec fn valid_connected(self) -> bool {
        forall|w: int| 0 <= w < 441 && self.has_stone(w) ==> self.connected(#[trigger] self.head[w], w, self.head[w])
    }

    /// The ko point is an empty cell, if there is one.
    pub open spec fn valid_ko(self) -> bool {
        self.ko == -1 || (0 <= self.ko < 441 && self.board[self.ko] == Stone::Empty)
    }

    /// What holds of every position between two moves.
    pub open spec fn valid(self) -> bool {
        &&& self.valid_board()
        &&& self.valid_empties()
        &&& self.valid_strings()
        &&& self.valid_liberties()
        &&& self.valid_maximal()
        &&& self.valid_connected()
        &&& self.valid_ko()
    }

    // ----- the empty board -----

    /// The position before the first move on a board of side `size`.
    pub open spec fn initial(size: int) -> Position {
        Position {
            size: size,
            board: Seq::new(441, |v: int| if on_board(size, v) { Stone::Empty } else { Stone::Border }),
            head: Seq::new(441, |v: int| v),
            chains: Seq::new(441, |v: int| Seq::<int>::empty()),
            empties: Seq::new((size * size) as nat, |i: int| vertex_index(i % size, i / size)),
            ko: -1,
            to_play: Stone::Black,
            history: Seq::empty(),
        }
    }

    // ----- legality -----

    /// Some orthogonal neighbour of `v` is empty.
    pub open spec fn has_empty_neighbour(self, v: int) -> bool {
        cell(self.board, nbr(v, 0)) == Stone::Empty || cell(self.board, nbr(v, 1)) == Stone::Empty
            || cell(self.board, nbr(v, 2)) == Stone::Empty || cell(self.board, nbr(v, 3)) == Stone::Empty
    }

    /// The neighbour `u` neither belongs to the opponent of `stone` nor is
    /// empty.
    pub open spec fn own_or_border(self, stone: Stone, u: int) -> bool {
        cell(self.board, u) != stone.spec_opponent() && cell(self.board, u) != Stone::Empty
    }

    /// All four orthogonal neighbours of `v` are stones of `stone` or border.
    pub open spec fn surrounded_by_own(self, stone: Stone, v: int) -> bool {
        self.own_or_border(stone, nbr(v, 0)) && self.own_or_border(stone, nbr(v, 1))
            && self.own_or_border(stone, nbr(v, 2)) && self.own_or_border(stone, nbr(v, 3))
    }

    /// Number of diagonal neighbours of `v` that hold a stone of the
    /// opponent of `stone`.
    pub open spec fn diagonal_enemies(self, stone: Stone, v: int) -> int {
        (if cell(self.board, diag(v, 0)) == stone.spec_opponent() { 1int } else { 0 })
        + (if cell(self.board, diag(v, 1)) == stone.spec_opponent() { 1int } else { 0 })
        + (if cell(self.board, diag(v, 2)) == stone.spec_opponent() { 1int } else { 0 })
        + (if cell(self.board, diag(v, 3)) == stone.spec_opponent() { 1int } else { 0 })
    }

    /// One if a diagonal neighbour of `v` that is no opponent stone is
    /// border, else zero.
    pub open spec fn diagonal_border(self, stone: Stone, v: int) -> int {
        if self.border_diagonal(stone, diag(v, 0)) || self.border_diagonal(stone, diag(v, 1))
            || self.border_diagonal(stone, diag(v, 2)) || self.border_diagonal(stone, diag(v, 3)) {
            1
        } else {
            0
        }
    }

    /// The cell `u` is border and not counted as an opponent stone.
    pub open spec fn border_diagonal(self, stone: Stone, u: int) -> bool {
        cell(self.board, u) != stone.spec_opponent() && cell(self.board, u) == Stone::Border
    }

    /// The empty cell `v` is an eye of `stone`: its orthogonal neighbours
    /// are own stones or border, and fewer than two of its diagonals are
    /// lost to the opponent, the border taken as one.
    pub open spec fn eye_like(self, stone: Stone, v: int) -> bool {
        self.surrounded_by_own(stone, v) && self.diagonal_enemies(stone, v) + self.diagonal_border(stone, v) < 2
    }

    /// The neighbour `u` holds a stone of `stone` whose string keeps a
    /// liberty when `v` is filled.
    pub open spec fn joins_safe_string(self, stone: Stone, u: int) -> bool {
        cell(self.board, u) == stone && !self.in_atari(self.head_of(u))
    }

    /// The neighbour `u` holds an opponent stone whose string has a single
    /// liberty.
    pub open spec fn captures_string(self, stone: Stone, u: int) -> bool {
        cell(self.board, u) == stone.spec_opponent() && self.in_atari(self.head_of(u))
    }

    /// Whether `stone` may be placed at `v`. A pass is always legal. A
    /// stone needs an empty cell that is not the ko point, and then an empty
    /// neighbour, or else a cell that is no eye of its own and where it
    /// joins a string with another liberty or takes the last liberty of an
    /// opponent string.
    pub open spec fn can_play(self, stone: Stone, v: int) -> bool {
        if v == -1 {
            true
        } else if cell(self.board, v) != Stone::Empty || v == self.ko {
            false
        } else if self.has_empty_neighbour(v) {
            true
        } else if self.eye_like(stone, v) {
            false
        } else if self.joins_safe_string(stone, nbr(v, 0)) || self.joins_safe_string(stone, nbr(v, 1))
            || self.joins_safe_string(stone, nbr(v, 2)) || self.joins_safe_string(stone, nbr(v, 3)) {
            true
        } else {
            self.captures_string(stone, nbr(v, 0)) || self.captures_string(stone, nbr(v, 1))
                || self.captures_string(stone, nbr(v, 2)) || self.captures_string(stone, nbr(v, 3))
        }
    }

    /// The first `n` empty cells that `stone` may play, in their order.
    pub open spec fn moves_upto(self, stone: Stone, n: int) -> Seq<int>
        decreases n,
    {
        if n <= 0 {
            Seq::empty()
        } else if self.can_play(stone, self.empties[n - 1]) {
            self.moves_upto(stone, n - 1).push(self.empties[n - 1])
        } else {
            self.moves_upto(stone, n - 1)
        }
    }

    /// The empty cells that `stone` may play, in the order of the list of
    /// empty cells.
    pub open spec fn possible_moves(self, stone: Stone) -> Seq<int> {
        self.moves_upto(stone, self.empties.len() as int)
    }

    /// The position after `i` in the cyclic list of empty cells.
    pub open spec fn next_index(self, i: int) -> int {
        if i + 1 >= self.empties.len() {
            0
        } else {
            i + 1
        }
    }

    /// The first cell that `stone` may play among `steps` entries of the
    /// list of empty cells, read cyclically from position `i`; -1 if there
    /// is none.
    pub open spec fn first_legal(self, stone: Stone, i: int, steps: int) -> int
        decreases steps,
    {
        if steps <= 0 {
            -1
        } else if self.can_play(stone, self.empties[i]) {
            self.empties[i]
        } else {
            self.first_legal(stone, self.next_index(i), steps - 1)
        }
    }

    /// The move found from position `start` of the list of empty cells: the
    /// first legal one in cyclic order, or the pass if there is none or the
    /// list has no such position.
    pub open spec fn move_from(self, stone: Stone, start: int) -> int {
        if 0 <= start < self.empties.len() {
            self.first_legal(stone, start, self.empties.len() as int)
        } else {
            -1
        }
    }

    // ----- playing a stone -----

    /// The largest string of `stone` among the first `k` neighbours of `v`,
    /// as its head and its number of stones; the first of several largest.
    /// Without such a neighbour the size is zero.
    pub open spec fn largest_upto(self, stone: Stone, v: int, k: int) -> (int, int)
        decreases k,
    {
        if k <= 0 {
            (-1, 0)
        } else {
            let best = self.largest_upto(stone, v, k - 1);
            let n = nbr(v, k - 1);
            if cell(self.board, n) == stone && self.chains[self.head_of(n)].len() > best.1 {
                (self.head_of(n), self.chains[self.head_of(n)].len() as int)
            } else {
                best
            }
        }
    }

    /// The string of `n` joined to the string with head `s`: its cells get
    /// the head `s`, and its chain, read from the stone after `n` round to
    /// `n`, is inserted behind `s`.
    pub open spec fn merged(self, n: int, s: int) -> Position {
        let hb = self.head[n];
        Position {
            head: Seq::new(441, |w: int| if self.head[w] == hb { s } else { self.head[w] }),
            chains: self.chains.update(s, seq![s] + self.chain_from(n).drop_first() + seq![n] + self.chains[s].drop_first()).update(
                hb,
                Seq::empty(),
            ),
            ..self
        }
    }

    /// The strings of `stone` among the first `k` neighbours of `v` joined,
    /// one after the other, to the string with head `s`.
    pub open spec fn merged_upto(self, stone: Stone, v: int, s: int, k: int) -> Position
        decreases k,
    {
        if k <= 0 {
            self
        } else {
            let prev = self.merged_upto(stone, v, s, k - 1);
            let n = nbr(v, k - 1);
            if cell(prev.board, n) == stone && prev.head_of(n) != s {
                prev.merged(n, s)
            } else {
                prev
            }
        }
    }

    /// The cell `v` added to the string with head `s`, behind the head.
    pub open spec fn attached(self, v: int, s: int) -> Position {
        Position { head: self.head.update(v, s), chains: self.chains.update(s, seq![s, v] + self.chains[s].drop_first()), ..self }
    }

    /// The cell `v` as a string of its own.
    pub open spec fn founded(self, v: int) -> Position {
        Position { head: self.head.update(v, v), chains: self.chains.update(v, seq![v]), ..self }
    }

    /// The strings after a stone of `stone` at `v` has joined its
    /// neighbours of the same color: they all become part of the largest
    /// of them, and so does `v`; without such a neighbour `v` is a string
    /// of its own.
    pub open spec fn joined(self, stone: Stone, v: int) -> Position {
        let best = self.largest_upto(stone, v, 4);
        if best.1 == 0 {
            self.founded(v)
        } else {
            self.merged_upto(stone, v, best.0, 4).attached(v, best.0)
        }
    }

    /// The stone put into the cell `v`, whose place in the list of empty
    /// cells the last entry takes.
    pub open spec fn placed(self, stone: Stone, v: int) -> Position {
        Position {
            board: self.board.update(v, stone),
            empties: self.empties.update(self.empties.index_of(v), self.empties.last()).drop_last(),
            ..self
        }
    }

    /// The stone `w` belongs to the string with head `h`.
    pub open spec fn in_string(self, w: int, h: int) -> bool {
        self.has_stone(w) && self.head[w] == h
    }

    /// The string of `n` taken off the board: its cells become empty and
    /// their own heads, and join the list of empty cells in the order of
    /// the chain from `n` on.
    pub open spec fn removed(self, n: int) -> Position {
        let h = self.head[n];
        Position {
            board: Seq::new(441, |w: int| if self.in_string(w, h) { Stone::Empty } else { self.board[w] }),
            head: Seq::new(441, |w: int| if self.in_string(w, h) { w } else { self.head[w] }),
            chains: self.chains.update(h, Seq::empty()),
            empties: self.empties + self.chain_from(n),
            ..self
        }
    }

    /// The string of the `k`-th neighbour of `v` taken off the board if it
    /// is an opponent string without liberties.
    pub open spec fn capture_at(self, stone: Stone, v: int, k: int) -> Position {
        if cell(self.board, nbr(v, k)) == stone.spec_opponent() && self.dead(self.head_of(nbr(v, k))) {
            self.removed(nbr(v, k))
        } else {
            self
        }
    }

    /// The opponent strings without liberties among the first `k`
    /// neighbours of `v` taken off the board, one after the other.
    pub open spec fn captured_upto(self, stone: Stone, v: int, k: int) -> Position
        decreases k,
    {
        if k <= 0 {
            self
        } else {
            self.captured_upto(stone, v, k - 1).capture_at(stone, v, k - 1)
        }
    }

    /// Some neighbour of `v` before the `k`-th holds a stone of `stone`
    /// whose string has the head `h`.
    pub open spec fn friend_head_upto(self, stone: Stone, v: int, h: int, k: int) -> bool {
        (k > 0 && cell(self.board, nbr(v, 0)) == stone && self.head_of(nbr(v, 0)) == h) || (k > 1 && cell(self.board, nbr(v, 1)) == stone
            && self.head_of(nbr(v, 1)) == h) || (k > 2 && cell(self.board, nbr(v, 2)) == stone && self.head_of(nbr(v, 2)) == h) || (k > 3
            && cell(self.board, nbr(v, 3)) == stone && self.head_of(nbr(v, 3)) == h)
    }

    /// The neighbour `u` is neither a stone of `stone` nor empty.
    pub open spec fn hostile(self, stone: Stone, u: int) -> bool {
        cell(self.board, u) != stone && cell(self.board, u) != Stone::Empty
    }

    /// No neighbour of `v` is empty or holds a stone of `stone`.
    pub open spec fn in_enemy_eye(self, stone: Stone, v: int) -> bool {
        self.hostile(stone, nbr(v, 0)) && self.hostile(stone, nbr(v, 1)) && self.hostile(stone, nbr(v, 2)) && self.hostile(stone, nbr(v, 3))
    }

    /// The position after `stone` has played the legal move `v`. The move
    /// is recorded, the opponent is to move and the ko point is cleared. A
    /// stone then joins its neighbours of the same color, is placed, and
    /// the opponent strings that it leaves without liberties are taken off.
    /// If it was played where every neighbour was hostile and the number of
    /// empty cells is as before, the one cell that became empty is the new
    /// ko point.
    pub open spec fn play(self, stone: Stone, v: int) -> Position {
        let begun = Position { to_play: stone.spec_opponent(), history: self.history.push(v), ko: -1, ..self };
        if v == -1 {
            begun
        } else {
            let done = begun.joined(stone, v).placed(stone, v).captured_upto(stone, v, 4);
            if self.in_enemy_eye(stone, v) && done.empties.len() == self.empties.len() {
                Position { ko: done.empties.last(), ..done }
            } else {
                done
            }
        }
    }

    /// The position after `stone` has tried the move `v`: an illegal move
    /// changes nothing.
    pub open spec fn tried(self, stone: Stone, v: int) -> Position {
        if self.can_play(stone, v) {
            self.play(stone, v)
        } else {
            self
        }
    }

    /// The position after the moves `moves` have been tried in turn, each
    /// by the side to move.
    pub open spec fn replayed(self, moves: Seq<int>) -> Position
        decreases moves.len(),
    {
        if moves.len() == 0 {
            self
        } else {
            let before = self.replayed(moves.drop_last());
            before.tried(before.to_play, moves.last())
        }
    }

    // ----- liberties -----

    /// The empty cell `w` is a liberty of the string with head `h`: one of
    /// its neighbours is a stone of that string.
    pub open spec fn is_liberty(self, h: int, w: int) -> bool {
        cell(self.board, w) == Stone::Empty && (self.in_string(nbr(w, 0), h) || self.in_string(nbr(w, 1), h) || self.in_string(nbr(w, 2), h)
            || self.in_string(nbr(w, 3), h))
    }

    /// The liberties below `n` of the string with head `h`, in ascending
    /// order.
    pub open spec fn liberties_upto(self, h: int, n: int) -> Seq<int>
        decreases n,
    {
        if n <= 0 {
            Seq::empty()
        } else if self.is_liberty(h, n - 1) {
            self.liberties_upto(h, n - 1).push(n - 1)
        } else {
            self.liberties_upto(h, n - 1)
        }
    }

    /// The liberties of the string of the stone at `v`, each once, in
    /// ascending order; none for a cell without a stone.
    pub open spec fn liberties(self, v: int) -> Seq<int> {
        if self.has_stone(v) {
            self.liberties_upto(self.head[v], 441)
        } else {
            Seq::empty()
        }
    }

    /// The cell `v` is the only liberty of the string with head `h`.
    pub open spec fn last_liberty(self, h: int, v: int) -> bool {
        self.liberties_upto(h, 441) == seq![v]
    }

    /// The cell `w` holds an opponent stone of `stone` whose string has
    /// the cell `v` as its only liberty.
    pub open spec fn taken_by(self, stone: Stone, v: int, w: int) -> bool {
        cell(self.board, w) == stone.spec_opponent() && self.last_liberty(self.head_of(w), v)
    }

    /// The stones after `stone` has been placed at `v`: the new stone is
    /// on the board, the opponent strings whose last liberty it has filled
    /// are off, and every other cell is as before.
    pub open spec fn board_after(self, stone: Stone, v: int) -> Seq<Stone> {
        Seq::new(
            441,
            |w: int|
                if w == v {
                    stone
                } else if self.taken_by(stone, v, w) {
                    Stone::Empty
                } else {
                    self.board[w]
                },
        )
    }

    // ----- scoring -----

    /// Number of cells that hold `stone`.
    pub open spec fn count(self, stone: Stone) -> int {
        count_upto(self.board, stone, 441)
    }

    /// The neighbour `u` counts for `stone` in an eye: it holds `stone` or
    /// is border.
    pub open spec fn counts_for(self, stone: Stone, u: int) -> bool {
        cell(self.board, u) != Stone::Empty && cell(self.board, u) != stone.spec_opponent()
    }

    /// All four neighbours of `v` count for `stone`.
    pub open spec fn surrounded_by(self, stone: Stone, v: int) -> bool {
        self.counts_for(stone, nbr(v, 0)) && self.counts_for(stone, nbr(v, 1))
            && self.counts_for(stone, nbr(v, 2)) && self.counts_for(stone, nbr(v, 3))
    }

    /// What the empty cell `v` adds to the score: one if Black surrounds
    /// it, else minus one if White does, else nothing.
    pub open spec fn eye_value(self, v: int) -> int {
        if self.surrounded_by(Stone::Black, v) {
            1
        } else if self.surrounded_by(Stone::White, v) {
            -1
        } else {
            0
        }
    }

    /// Sum of the eye values of the first `n` empty cells.
    pub open spec fn eyes_upto(self, n: int) -> int
        decreases n,
    {
        if n <= 0 {
            0
        } else {
            self.eyes_upto(n - 1) + self.eye_value(self.empties[n - 1])
        }
    }

    /// Area score from Black's side: Black stones less White stones, plus
    /// the empty cells that Black surrounds less those that White surrounds.
    pub open spec fn chinese_score(self) -> int {
        self.count(Stone::Black) - self.count(Stone::White) + self.eyes_upto(self.empties.len() as int)
    }
}

} // verus!
