//! The board: stones, strings with their liberty counters, the list of
//! empty cells, the ko point and the moves played.

use vstd::prelude::*;
use crate::alive::{
    hopeful, lemma_capture_maximal, lemma_capture_step, lemma_hopeful_end, lemma_hopeful_frame, lemma_maximal_frame, lemma_placed_hopeful,
    lemma_placed_maximal,
};
use crate::captures::{capture_progress, lemma_board_after_frame, lemma_capture_begin, lemma_capture_end, lemma_capture_progress};
use crate::chains::{
    chain_rank, lemma_attached_structure, lemma_chain_length, lemma_entry_of_rank, lemma_founded_structure, lemma_merged_structure,
    lemma_rank_of_entry, lemma_removed_structure, lemma_rotate_at, lemma_rotate_distinct, lemma_rotate_links, lemma_rotate_of, unturned,
};
use crate::coherence::{
    chain_linked, counters_ok, counts_ok, index_ok, lagged_ok, lemma_adjacent_is_pending, lemma_base_bounds, lemma_empty_cell_summary,
    lemma_head_of_head, lemma_liberties_frame, lemma_pending_bounds, lemma_structure_frame, link_ok, links_ok, listing_ok, pending, sizes_ok,
    string_views, structure_ok, wrap_next,
};
use crate::components::{lemma_connected_frame, lemma_play_connected};
use crate::counting::{lemma_count_bounds, lemma_count_none, lemma_count_update};
use crate::position::{base, cell, cell_liberties, num_incidences, rotate, total, weight, Position};
use crate::rng::random_below;
use crate::rules::{lemma_no_legal_move, lemma_play_frame};
use crate::stone::Stone;
use crate::string::{String, StringView};
use crate::sums::{
    active, cell_liberties_upto, lemma_cell_liberties_full, lemma_lsum_cell, lemma_lsum_move, lemma_lsum_none, lemma_lsum_relabel,
    lemma_lsum_single, lemma_total_bounds, lemma_weight_bounds, target,
};
use crate::vertex::{diag, diag_neighbours, in_virtual, indices, lemma_on_board_interior, nbr, neighbours, on_board, vertex_index, Vertex};

verus! {

/// A game of Go on a square board of side at most 19.
pub struct GoGame {
    size: usize,
    // Stones with a border of one cell on all sides, so that a neighbour
    // always exists.
    board: Vec<Stone>,
    // Liberty counters; the entry of a head is that of its string.
    strings: Vec<String>,
    // Head of the string of every cell.
    string_head: Vec<Vertex>,
    // The stones of a string as a cyclic list.
    string_next_v: Vec<Vertex>,
    // All empty cells.
    empty_vertices: Vec<Vertex>,
    // Position of every empty cell in the list above.
    empty_v_index: Vec<usize>,
    // Number of black stones on the board.
    num_black_stones: i16,
    // Cell that simple ko forbids.
    ko_vertex: Vertex,
    pub to_play: Stone,
    pub history: Vec<Vertex>,
    // The stones of each string in the order of its cyclic list.
    chains: Ghost<Seq<Seq<int>>>,
}

impl View for GoGame {
    type V = Position;

    closed spec fn view(&self) -> Position {
        Position {
            size: self.size as int,
            board: self.board@,
            head: indices(self.string_head@),
            chains: self.chains@,
            empties: indices(self.empty_vertices@),
            ko: self.ko_vertex.0 as int,
            to_play: self.to_play,
            history: indices(self.history@),
        }
    }
}

impl GoGame {
    // ----- the invariant -----

    /// The vectors cover the virtual board.
    closed spec fn sized(&self) -> bool {
        &&& self.size <= 19
        &&& self.board@.len() == 441
        &&& self.strings@.len() == 441
        &&& self.string_head@.len() == 441
        &&& self.string_next_v@.len() == 441
        &&& self.empty_v_index@.len() == 441
        &&& self.chains@.len() == 441
        &&& forall|v: int| 0 <= v < 441 && !on_board(self.size as int, v) ==> #[trigger] self.board@[v] == Stone::Border
    }

    /// The state between the steps of a move: the strings are well formed
    /// over the stones of `stones`, and the counters are those of the heads
    /// `heads` on the board as it is, but for the lag at `v`.
    closed spec fn coherent(&self, stones: Seq<Stone>, heads: Seq<int>, v: int, k0: int, sign: int) -> bool {
        &&& self.sized()
        &&& listing_ok(self@, self.empty_v_index@, self.num_black_stones as int)
        &&& stones.len() == 441
        &&& structure_ok(Position { board: stones, ..self@ }, indices(self.string_next_v@), string_views(self.strings@))
        &&& heads.len() == 441
        &&& lagged_ok(self.size as int, self.board@, heads, string_views(self.strings@), v, k0, sign)
    }

    /// The strings are well formed over the stones on the board and the
    /// counters are up to date.
    closed spec fn settled(&self) -> bool {
        self.coherent(self.board@, indices(self.string_head@), 0, 4, 0)
    }

    /// The strings are the sets of stones that hang together.
    #[verifier::opaque]
    closed spec fn components_ok(pos: Position) -> bool {
        pos.valid_maximal() && pos.valid_connected()
    }

    /// The invariant of the board: the position is valid and the cached
    /// values agree with it.
    pub closed spec fn wf(&self) -> bool {
        &&& self.settled()
        &&& self@.valid_liberties()
        &&& Self::components_ok(self@)
        &&& self@.valid_ko()
    }

    /// The link of every cell: the next stone of its string.
    pub closed spec fn links(&self) -> Seq<int> {
        indices(self.string_next_v@)
    }

    /// The counters kept for every cell; those of a head are the counters
    /// of its string.
    pub closed spec fn counters(&self) -> Seq<StringView> {
        string_views(self.strings@)
    }

    /// The place of every cell in the list of empty cells.
    pub closed spec fn places(&self) -> Seq<usize> {
        self.empty_v_index@
    }

    /// The number of black stones that is kept.
    pub closed spec fn black_stones(&self) -> int {
        self.num_black_stones as int
    }

    /// On a board that satisfies the invariant the cached values agree
    /// with the position: following the links from a stone leads through
    /// its string and back to it; the counters of a head are those of its
    /// string, and it records the number and the color of its stones;
    /// every empty cell knows its place in the list of empty cells; and
    /// the stones of both colors and the empty cells add up to the board.
    pub proof fn lemma_wf_caches(&self)
        requires
            self.wf(),
        ensures
            links_ok(self@, self.links()),
            counters_ok(self@, self.counters()),
            sizes_ok(self@, self.counters()),
            index_ok(self@, self.places()),
            counts_ok(self@, self.black_stones()),
            self@.count(Stone::Black) + self@.count(Stone::White) + self@.empties.len() == self@.size * self@.size,
    {
        assert(Position { board: self.board@, ..self@ } == self@);
    }

    /// A board that satisfies the invariant holds a valid position.
    pub proof fn lemma_wf_valid(&self)
        requires
            self.wf(),
        ensures
            self@.valid(),
    {
        reveal(GoGame::components_ok);
    }

    /// All fields but the liberty counters are equal.
    closed spec fn same_but_strings(&self, other: &GoGame) -> bool {
        &&& self.size == other.size
        &&& self.board == other.board
        &&& self.string_head == other.string_head
        &&& self.string_next_v == other.string_next_v
        &&& self.empty_vertices == other.empty_vertices
        &&& self.empty_v_index == other.empty_v_index
        &&& self.num_black_stones == other.num_black_stones
        &&& self.ko_vertex == other.ko_vertex
        &&& self.to_play == other.to_play
        &&& self.history == other.history
        &&& self.chains == other.chains
        &&& self.strings@.len() == other.strings@.len()
    }

    /// All fields but the board, the list of empty cells with its index and
    /// the number of black stones are equal.
    closed spec fn same_but_cells(&self, other: &GoGame) -> bool {
        &&& self.size == other.size
        &&& self.strings == other.strings
        &&& self.string_head == other.string_head
        &&& self.string_next_v == other.string_next_v
        &&& self.ko_vertex == other.ko_vertex
        &&& self.to_play == other.to_play
        &&& self.history == other.history
        &&& self.chains == other.chains
    }

    /// All fields but the side to move, the moves played and the ko point
    /// are equal.
    closed spec fn same_stones(&self, other: &GoGame) -> bool {
        &&& self.size == other.size
        &&& self.board == other.board
        &&& self.strings == other.strings
        &&& self.string_head == other.string_head
        &&& self.string_next_v == other.string_next_v
        &&& self.empty_vertices == other.empty_vertices
        &&& self.empty_v_index == other.empty_v_index
        &&& self.num_black_stones == other.num_black_stones
        &&& self.chains == other.chains
    }

    // The invariant does not depend on the side to move and on the moves
    // played, and of the ko point it asks only that it is empty.
    proof fn lemma_same_stones(&self, other: &GoGame)
        requires
            other.settled(),
            other@.valid_liberties(),
            Self::components_ok(other@),
            self.same_stones(other),
            self@.valid_ko(),
        ensures
            self.wf(),
    {
        let a = other@;
        let b = self@;
        let next = indices(self.string_next_v@);
        let views = string_views(self.strings@);
        assert(b.board == a.board && b.head == a.head && b.chains == a.chains && b.empties == a.empties && b.size == a.size);
        lemma_structure_frame(Position { board: other.board@, ..a }, Position { board: self.board@, ..b }, next, views);
        lemma_liberties_frame(a, b);
        assert(Self::components_ok(b)) by {
            reveal(GoGame::components_ok);
            lemma_maximal_frame(a, b);
            lemma_connected_frame(a, b);
        }
        assert(listing_ok(b, self.empty_v_index@, self.num_black_stones as int)) by {
            assert(listing_ok(a, other.empty_v_index@, other.num_black_stones as int));
            assert(b.valid_board());
            assert(b.valid_empties());
            assert(index_ok(b, self.empty_v_index@));
            assert(counts_ok(b, self.num_black_stones as int));
        }
    }

    // A board whose strings are settled and have liberties, and whose ko
    // point is empty, satisfies the invariant.
    proof fn lemma_settled_wf(&self)
        requires
            self.settled(),
            self@.valid_liberties(),
            self@.valid_maximal(),
            self@.valid_connected(),
            self@.valid_ko(),
        ensures
            self.wf(),
    {
        reveal(GoGame::components_ok);
    }

    // ----- the empty board -----

    /// The cell `u` comes before column `x` of row `y` in the order in which
    /// the board is filled.
    pub open spec fn before(u: int, x: int, y: int) -> bool {
        crate::vertex::row_of(u) < y || (crate::vertex::row_of(u) == y && crate::vertex::col_of(u) < x)
    }

    /// The summary of a border cell that has lost no liberty.
    pub open spec fn border_view() -> StringView {
        StringView { color: Stone::Empty, num_stones: 0, count: 4, sum: 32768, sum_squared: 2147483648 }
    }

    /// The summary of a cell without stones whose first empty neighbours,
    /// those whose pair lies below `n`, have been counted.
    pub open spec fn counted_view(board: Seq<Stone>, w: int, n: int) -> StringView {
        StringView {
            color: Stone::Empty,
            num_stones: 0,
            count: cell_liberties_upto(board, w, 0, n) as nat,
            sum: cell_liberties_upto(board, w, 1, n) as nat,
            sum_squared: cell_liberties_upto(board, w, 2, n) as nat,
        }
    }

    // Makes every cell the head of its own string, with the counters of a
    // border cell and no successor.
    fn clear_strings(&mut self)
        requires
            old(self).sized(),
        ensures
            final(self).sized(),
            final(self).size == old(self).size,
            final(self).board == old(self).board,
            final(self).empty_vertices == old(self).empty_vertices,
            final(self).empty_v_index == old(self).empty_v_index,
            final(self).num_black_stones == old(self).num_black_stones,
            final(self).ko_vertex == old(self).ko_vertex,
            final(self).to_play == old(self).to_play,
            final(self).history == old(self).history,
            final(self).chains == old(self).chains,
            forall|j: int| 0 <= j < 441 ==> (#[trigger] final(self).strings@[j])@ == Self::border_view(),
            forall|j: int| 0 <= j < 441 ==> (#[trigger] final(self).string_head@[j]).0 == j,
            forall|j: int| 0 <= j < 441 ==> (#[trigger] final(self).string_next_v@[j]).0 == -1,
    {
        let mut i: usize = 0;
        while i < 441
            invariant
                0 <= i <= 441,
                self.sized(),
                self.size == old(self).size,
                self.board == old(self).board,
                self.empty_vertices == old(self).empty_vertices,
                self.empty_v_index == old(self).empty_v_index,
                self.num_black_stones == old(self).num_black_stones,
                self.ko_vertex == old(self).ko_vertex,
                self.to_play == old(self).to_play,
                self.history == old(self).history,
                self.chains == old(self).chains,
                forall|j: int| 0 <= j < i ==> (#[trigger] self.strings@[j])@ == Self::border_view(),
                forall|j: int| 0 <= j < i ==> (#[trigger] self.string_head@[j]).0 == j,
                forall|j: int| 0 <= j < i ==> (#[trigger] self.string_next_v@[j]).0 == -1,
            decreases 441 - i,
        {
            self.strings[i].reset_border();
            self.string_head[i] = Vertex(i as i16);
            self.string_next_v[i] = Vertex::pass();
            i += 1;
        }
    }

    // Empties every playable cell and lists it.
    #[verifier::rlimit(50)]
    fn clear_cells(&mut self)
        requires
            old(self).sized(),
            old(self).empty_vertices@.len() == 0,
            forall|j: int| 0 <= j < 441 ==> (#[trigger] old(self).strings@[j])@ == Self::border_view(),
        ensures
            final(self).sized(),
            final(self).size == old(self).size,
            final(self).string_head == old(self).string_head,
            final(self).string_next_v == old(self).string_next_v,
            final(self).num_black_stones == old(self).num_black_stones,
            final(self).ko_vertex == old(self).ko_vertex,
            final(self).to_play == old(self).to_play,
            final(self).history == old(self).history,
            final(self).chains == old(self).chains,
            final(self).board@ == Position::initial(old(self).size as int).board,
            indices(final(self).empty_vertices@) == Position::initial(old(self).size as int).empties,
            forall|i: int| 0 <= i < final(self).empty_vertices@.len() ==> {
                &&& on_board(old(self).size as int, (#[trigger] final(self).empty_vertices@[i]).0 as int)
                &&& final(self).empty_v_index@[final(self).empty_vertices@[i].0 as int] == i
            },
            forall|u: int| on_board(old(self).size as int, u) ==> {
                &&& (#[trigger] final(self).empty_v_index@[u]) < final(self).empty_vertices@.len()
                &&& final(self).empty_vertices@[final(self).empty_v_index@[u] as int].0 == u
            },
            forall|j: int| 0 <= j < 441 ==> (#[trigger] final(self).strings@[j])@ == (if on_board(old(self).size as int, j) {
                Self::counted_view(final(self).board@, j, 0)
            } else {
                Self::border_view()
            }),
    {
        let size = self.size;
        let ghost sz = size as int;
        let mut y: usize = 0;
        while y < size
            invariant
                0 <= y <= size,
                size == self.size,
                sz == size,
                self.sized(),
                self.size == old(self).size,
                self.string_head == old(self).string_head,
                self.string_next_v == old(self).string_next_v,
                self.num_black_stones == old(self).num_black_stones,
                self.ko_vertex == old(self).ko_vertex,
                self.to_play == old(self).to_play,
                self.history == old(self).history,
                self.chains == old(self).chains,
                self.empty_vertices@.len() == y * size,
                forall|u: int| 0 <= u < 441 && on_board(sz, u) && Self::before(u, 0, y as int) ==> #[trigger] self.board@[u] == Stone::Empty,
                forall|i: int| 0 <= i < self.empty_vertices@.len() ==> {
                    &&& on_board(sz, (#[trigger] self.empty_vertices@[i]).0 as int)
                    &&& Self::before(self.empty_vertices@[i].0 as int, 0, y as int)
                    &&& self.empty_v_index@[self.empty_vertices@[i].0 as int] == i
                    &&& self.empty_vertices@[i].0 == vertex_index(i % sz, i / sz)
                },
                forall|u: int| on_board(sz, u) && Self::before(u, 0, y as int) ==> {
                    &&& (#[trigger] self.empty_v_index@[u]) < self.empty_vertices@.len()
                    &&& self.empty_vertices@[self.empty_v_index@[u] as int].0 == u
                },
                forall|j: int| 0 <= j < 441 ==> (#[trigger] self.strings@[j])@ == (if on_board(sz, j) && Self::before(j, 0, y as int) {
                    Self::counted_view(self.board@, j, 0)
                } else {
                    Self::border_view()
                }),
            decreases size - y,
        {
            let mut x: usize = 0;
            while x < size
                invariant
                    0 <= x <= size,
                    0 <= y < size,
                    size == self.size,
                    sz == size,
                    self.sized(),
                    self.size == old(self).size,
                    self.string_head == old(self).string_head,
                    self.string_next_v == old(self).string_next_v,
                    self.num_black_stones == old(self).num_black_stones,
                    self.ko_vertex == old(self).ko_vertex,
                    self.to_play == old(self).to_play,
                    self.history == old(self).history,
                    self.chains == old(self).chains,
                    self.empty_vertices@.len() == y * size + x,
                    forall|u: int| 0 <= u < 441 && on_board(sz, u) && Self::before(u, x as int, y as int) ==> #[trigger] self.board@[u] == Stone::Empty,
                    forall|i: int| 0 <= i < self.empty_vertices@.len() ==> {
                        &&& on_board(sz, (#[trigger] self.empty_vertices@[i]).0 as int)
                        &&& Self::before(self.empty_vertices@[i].0 as int, x as int, y as int)
                        &&& self.empty_v_index@[self.empty_vertices@[i].0 as int] == i
                        &&& self.empty_vertices@[i].0 == vertex_index(i % sz, i / sz)
                    },
                    forall|u: int| on_board(sz, u) && Self::before(u, x as int, y as int) ==> {
                        &&& (#[trigger] self.empty_v_index@[u]) < self.empty_vertices@.len()
                        &&& self.empty_vertices@[self.empty_v_index@[u] as int].0 == u
                    },
                    forall|j: int| 0 <= j < 441 ==> (#[trigger] self.strings@[j])@ == (if on_board(sz, j) && Self::before(j, x as int, y as int) {
                        Self::counted_view(self.board@, j, 0)
                    } else {
                        Self::border_view()
                    }),
                decreases size - x,
            {
                let v = Vertex::new(x as i16, y as i16);
                let idx = v.as_index();
                let ghost i = self.empty_vertices@.len() as int;
                proof {
                    assert(on_board(sz, idx as int));
                    assert(y * size <= 18 * 19) by (nonlinear_arith)
                        requires
                            0 <= y <= 18,
                            0 <= size <= 19,
                    ;
                    vstd::arithmetic::div_mod::lemma_fundamental_div_mod_converse(i, sz, y as int, x as int);
                }
                self.board[idx] = Stone::Empty;
                self.strings[idx].reset();
                self.empty_v_index[idx] = self.empty_vertices.len();
                self.empty_vertices.push(v);
                x += 1;
                proof {
                    assert(forall|u: int| on_board(sz, u) && Self::before(u, x as int, y as int) ==> u == idx || Self::before(u, x as int - 1, y as int));
                }
            }
            proof {
                assert(forall|u: int| on_board(sz, u) && Self::before(u, 0, y as int + 1) ==> Self::before(u, size as int, y as int));
                assert((y + 1) * size == y * size + size) by (nonlinear_arith);
            }
            y += 1;
        }
        proof {
            let init = Position::initial(sz);
            assert(forall|u: int| on_board(sz, u) ==> Self::before(u, 0, size as int));
            assert(self.board@ =~= init.board);
            assert(indices(self.empty_vertices@) =~= init.empties);
        }
    }

    // Counts the empty neighbours of the cell `v`, whose counters are zero.
    fn count_cell(&mut self, v: Vertex)
        requires
            old(self).sized(),
            22 <= v.0 <= 418,
            (old(self).strings@[v.0 as int])@ == Self::counted_view(old(self).board@, v.0 as int, 0),
        ensures
            final(self).sized(),
            final(self).same_but_strings(old(self)),
            forall|j: int| 0 <= j < 441 && j != v.0 ==> final(self).strings@[j] == old(self).strings@[j],
            (final(self).strings@[v.0 as int])@ == Self::counted_view(old(self).board@, v.0 as int, num_incidences()),
    {
        let idx = v.as_index();
        let ns = neighbours(v);
        let mut k: usize = 0;
        while k < 4
            invariant
                0 <= k <= 4,
                idx == v.0,
                22 <= idx <= 418,
                forall|j: int| 0 <= j < 4 ==> (#[trigger] ns[j]).0 == nbr(v.0 as int, j),
                self.sized(),
                self.same_but_strings(old(self)),
                forall|j: int| 0 <= j < 441 && j != v.0 ==> self.strings@[j] == old(self).strings@[j],
                (self.strings@[idx as int])@ == Self::counted_view(self.board@, idx as int, 4 * idx + k),
            decreases 4 - k,
        {
            let n = ns[k];
            proof {
                assert(n.0 == nbr(v.0 as int, k as int));
                lemma_weight_bounds(nbr(idx as int, 0), 2);
                lemma_weight_bounds(nbr(idx as int, 1), 2);
                lemma_weight_bounds(nbr(idx as int, 2), 2);
                lemma_weight_bounds(nbr(idx as int, 3), 2);
            }
            if self.board[n.as_index()] == Stone::Empty {
                self.strings[idx].add_liberty(n);
            }
            k += 1;
        }
    }

    // Counts for every playable cell of the empty board its empty
    // neighbours.
    fn count_liberties(&mut self)
        requires
            old(self).sized(),
            old(self).board@ == Position::initial(old(self).size as int).board,
            forall|j: int| 0 <= j < 441 ==> (#[trigger] old(self).strings@[j])@ == (if on_board(old(self).size as int, j) {
                Self::counted_view(old(self).board@, j, 0)
            } else {
                Self::border_view()
            }),
        ensures
            final(self).sized(),
            final(self).size == old(self).size,
            final(self).board == old(self).board,
            final(self).string_head == old(self).string_head,
            final(self).string_next_v == old(self).string_next_v,
            final(self).empty_vertices == old(self).empty_vertices,
            final(self).empty_v_index == old(self).empty_v_index,
            final(self).num_black_stones == old(self).num_black_stones,
            final(self).ko_vertex == old(self).ko_vertex,
            final(self).to_play == old(self).to_play,
            final(self).history == old(self).history,
            final(self).chains == old(self).chains,
            forall|j: int| 0 <= j < 441 ==> (#[trigger] final(self).strings@[j])@ == (if on_board(old(self).size as int, j) {
                Self::counted_view(final(self).board@, j, num_incidences())
            } else {
                Self::border_view()
            }),
    {
        let size = self.size;
        let ghost sz = size as int;
        let mut y: usize = 0;
        while y < size
            invariant
                0 <= y <= size,
                size == self.size,
                sz == size,
                self.sized(),
                self.size == old(self).size,
                self.board == old(self).board,
                self.string_head == old(self).string_head,
                self.string_next_v == old(self).string_next_v,
                self.empty_vertices == old(self).empty_vertices,
                self.empty_v_index == old(self).empty_v_index,
                self.num_black_stones == old(self).num_black_stones,
                self.ko_vertex == old(self).ko_vertex,
                self.to_play == old(self).to_play,
                self.history == old(self).history,
                self.chains == old(self).chains,
                forall|j: int| 0 <= j < 441 ==> (#[trigger] self.strings@[j])@ == (if on_board(sz, j) {
                    Self::counted_view(self.board@, j, if Self::before(j, 0, y as int) { num_incidences() } else { 0 })
                } else {
                    Self::border_view()
                }),
            decreases size - y,
        {
            let mut x: usize = 0;
            while x < size
                invariant
                    0 <= x <= size,
                    0 <= y < size,
                    size == self.size,
                    sz == size,
                    self.sized(),
                    self.size == old(self).size,
                    self.board == old(self).board,
                    self.string_head == old(self).string_head,
                    self.string_next_v == old(self).string_next_v,
                    self.empty_vertices == old(self).empty_vertices,
                    self.empty_v_index == old(self).empty_v_index,
                    self.num_black_stones == old(self).num_black_stones,
                    self.ko_vertex == old(self).ko_vertex,
                    self.to_play == old(self).to_play,
                    self.history == old(self).history,
                    self.chains == old(self).chains,
                    forall|j: int| 0 <= j < 441 ==> (#[trigger] self.strings@[j])@ == (if on_board(sz, j) {
                        Self::counted_view(self.board@, j, if Self::before(j, x as int, y as int) { num_incidences() } else { 0 })
                    } else {
                        Self::border_view()
                    }),
                decreases size - x,
            {
                let v = Vertex::new(x as i16, y as i16);
                let idx = v.as_index();
                proof {
                    assert(on_board(sz, idx as int));
                    lemma_on_board_interior(sz, idx as int);
                }
                self.count_cell(v);
                x += 1;
                proof {
                    assert(forall|u: int| on_board(sz, u) && Self::before(u, x as int, y as int) ==> u == idx || Self::before(u, x as int - 1, y as int));
                }
            }
            proof {
                assert(forall|u: int| on_board(sz, u) && Self::before(u, 0, y as int + 1) ==> Self::before(u, size as int, y as int));
            }
            y += 1;
        }
        proof {
            assert(forall|u: int| on_board(sz, u) ==> Self::before(u, 0, size as int));
        }
    }

    // What the three passes over a board leave is the empty board in a
    // consistent state.
    #[verifier::rlimit(50)]
    proof fn lemma_cleared(&self)
        requires
            self.sized(),
            self.num_black_stones == 0,
            self.ko_vertex.0 == -1,
            self.to_play == Stone::Black,
            self.history@.len() == 0,
            self.chains@ == Position::initial(self.size as int).chains,
            self.board@ == Position::initial(self.size as int).board,
            indices(self.empty_vertices@) == Position::initial(self.size as int).empties,
            forall|j: int| 0 <= j < 441 ==> (#[trigger] self.string_head@[j]).0 == j,
            forall|i: int| 0 <= i < self.empty_vertices@.len() ==> {
                &&& on_board(self.size as int, (#[trigger] self.empty_vertices@[i]).0 as int)
                &&& self.empty_v_index@[self.empty_vertices@[i].0 as int] == i
            },
            forall|u: int| on_board(self.size as int, u) ==> {
                &&& (#[trigger] self.empty_v_index@[u]) < self.empty_vertices@.len()
                &&& self.empty_vertices@[self.empty_v_index@[u] as int].0 == u
            },
            forall|j: int| 0 <= j < 441 ==> (#[trigger] self.strings@[j])@ == (if on_board(self.size as int, j) {
                Self::counted_view(self.board@, j, num_incidences())
            } else {
                Self::border_view()
            }),
        ensures
            self.wf(),
            self@ == Position::initial(self.size as int),
    {
        let sz = self.size as int;
        let init = Position::initial(sz);
        let pos = self@;
        assert(pos.head =~= init.head);
        assert(pos.history =~= init.history);
        assert(pos == init);
        assert(pos.valid_board());
        assert(pos.valid_empties()) by {
            assert forall|i: int, j: int| 0 <= i < pos.empties.len() && 0 <= j < pos.empties.len() && i != j implies pos.empties[i] != pos.empties[j] by {
                assert(self.empty_v_index@[self.empty_vertices@[i].0 as int] == i);
                assert(self.empty_v_index@[self.empty_vertices@[j].0 as int] == j);
            }
            assert forall|v: int| 0 <= v < 441 && #[trigger] pos.board[v] == Stone::Empty implies pos.empties.contains(v) by {
                assert(on_board(sz, v));
                let i = self.empty_v_index@[v] as int;
                assert(pos.empties[i] == v);
            }
        }
        assert(pos.valid_strings());
        assert(pos.valid_liberties());
        assert(Self::components_ok(pos)) by {
            reveal(GoGame::components_ok);
        }
        assert(pos.valid_ko());
        assert(links_ok(pos, indices(self.string_next_v@)));
        let views = string_views(self.strings@);
        assert forall|h: int| 0 <= h < 441 && pos.head[h] == h implies (#[trigger] views[h]).count == pos.summary(h, 0) && views[h].sum == pos.summary(h, 1)
            && views[h].sum_squared == pos.summary(h, 2) by {
            lemma_lsum_single(pos.board, pos.head, h, h, 0, num_incidences());
            lemma_lsum_single(pos.board, pos.head, h, h, 1, num_incidences());
            lemma_lsum_single(pos.board, pos.head, h, h, 2, num_incidences());
            lemma_total_bounds(pos.board, pos.head, h);
            assert(views[h] == self.strings@[h]@);
            if !on_board(sz, h) {
                assert(forall|k: int| 0 <= k < 4 ==> (cell(pos.board, #[trigger] nbr(h, k)) == Stone::Empty <==> on_board(sz, nbr(h, k))));
                assert(cell(pos.board, nbr(h, 0)) == Stone::Empty <==> on_board(sz, nbr(h, 0)));
                assert(cell(pos.board, nbr(h, 1)) == Stone::Empty <==> on_board(sz, nbr(h, 1)));
                assert(cell(pos.board, nbr(h, 2)) == Stone::Empty <==> on_board(sz, nbr(h, 2)));
                assert(cell(pos.board, nbr(h, 3)) == Stone::Empty <==> on_board(sz, nbr(h, 3)));
            }
        }
        assert(counters_ok(pos, views));
        assert forall|h: int| 0 <= h < 441 && pos.head[h] == h implies (#[trigger] views[h]).num_stones == 0 && views[h].color == Stone::Empty by {
            assert(views[h] == self.strings@[h]@);
        }
        assert(sizes_ok(pos, views));
        assert(index_ok(pos, self.empty_v_index@));
        lemma_count_none(pos.board, Stone::Black, 441);
        lemma_count_none(pos.board, Stone::White, 441);
        assert(counts_ok(pos, self.num_black_stones as int));
    }

    // Clears the board to the position before the first move.
    fn clear(&mut self)
        requires
            old(self).sized(),
        ensures
            final(self).wf(),
            final(self)@ == Position::initial(old(self).size as int),
    {
        self.empty_vertices.clear();
        self.num_black_stones = 0;
        self.ko_vertex = Vertex::pass();
        self.to_play = Stone::Black;
        self.history.clear();
        proof {
            self.chains = Ghost(Seq::new(441, |v: int| Seq::<int>::empty()));
        }
        self.clear_strings();
        self.clear_cells();
        self.count_liberties();
        proof {
            self.lemma_cleared();
        }
    }

    /// The empty board of side `size`, Black to move.
    pub fn new(size: usize) -> (game: GoGame)
        requires
            size <= 19,
        ensures
            game.wf(),
            game@ == Position::initial(size as int),
    {
        assert(size * size <= 361) by (nonlinear_arith)
            requires
                size <= 19,
        ;
        let mut game = GoGame {
            size: size,
            board: vec![Stone::Border; 441],
            strings: vec![String::new(); 441],
            string_head: vec![Vertex(-1); 441],
            string_next_v: vec![Vertex(-1); 441],
            empty_vertices: Vec::with_capacity(size * size),
            empty_v_index: vec![0usize; 441],
            num_black_stones: 0,
            ko_vertex: Vertex(-1),
            to_play: Stone::Black,
            history: Vec::with_capacity(600),
            chains: Ghost(Seq::new(441, |v: int| Seq::<int>::empty())),
        };
        game.clear();
        game
    }

    /// Clears the board to the position before the first move, keeping its
    /// side.
    pub fn reset(&mut self)
        requires
            old(self).wf(),
        ensures
            final(self).wf(),
            final(self)@ == Position::initial(old(self)@.size),
    {
        self.clear();
    }

    // ----- looking at the board -----

    /// Side of the board.
    pub fn size(&self) -> (n: usize)
        ensures
            n == self@.size,
    {
        self.size
    }

    /// The side to move.
    pub fn side_to_move(&self) -> (s: Stone)
        ensures
            s == self@.to_play,
    {
        self.to_play
    }

    /// Number of moves played, passes included.
    pub fn num_moves(&self) -> (n: usize)
        ensures
            n == self@.history.len(),
    {
        self.history.len()
    }

    /// The `i`-th move played.
    pub fn move_at(&self, i: usize) -> (v: Vertex)
        requires
            i < self@.history.len(),
        ensures
            v.0 == self@.history[i as int],
    {
        self.history[i]
    }

    /// The moves played so far, passes included.
    pub fn moves(&self) -> (r: Vec<Vertex>)
        ensures
            indices(r@) == self@.history,
    {
        let mut r: Vec<Vertex> = Vec::new();
        let mut j: usize = 0;
        while j < self.history.len()
            invariant
                0 <= j <= self.history@.len(),
                r@ == self.history@.subrange(0, j as int),
            decreases self.history@.len() - j,
        {
            r.push(self.history[j]);
            j += 1;
            assert(r@ =~= self.history@.subrange(0, j as int));
        }
        assert(r@ =~= self.history@);
        r
    }

    /// Number of empty cells.
    pub fn num_empty(&self) -> (n: usize)
        ensures
            n == self@.empties.len(),
    {
        self.empty_vertices.len()
    }

    /// The empty cells, in the order in which moves are tried.
    pub fn empty_vertices(&self) -> (r: Vec<Vertex>)
        ensures
            indices(r@) == self@.empties,
    {
        let mut r: Vec<Vertex> = Vec::new();
        let mut i: usize = 0;
        while i < self.empty_vertices.len()
            invariant
                0 <= i <= self.empty_vertices@.len(),
                r@ == self.empty_vertices@.subrange(0, i as int),
            decreases self.empty_vertices@.len() - i,
        {
            r.push(self.empty_vertices[i]);
            i += 1;
            assert(r@ =~= self.empty_vertices@.subrange(0, i as int));
        }
        assert(r@ =~= self.empty_vertices@);
        r
    }

    /// The vertex at column `x` and row `y`.
    pub fn vertex(x: i16, y: i16) -> (v: Vertex)
        requires
            i16::MIN <= vertex_index(x as int, y as int) <= i16::MAX,
        ensures
            v.0 == vertex_index(x as int, y as int),
    {
        Vertex::new(x, y)
    }

    /// The stone at `vertex`; border outside the virtual board.
    pub fn stone_at(&self, vertex: Vertex) -> (s: Stone)
        requires
            self.wf(),
        ensures
            s == cell(self@.board, vertex.0 as int),
    {
        if vertex.0 < 0 || vertex.0 >= 441 {
            Stone::Border
        } else {
            self.board[vertex.0 as usize]
        }
    }

    // The head of the string of the cell `n`.
    fn head_at(&self, n: Vertex) -> (h: Vertex)
        requires
            self.settled(),
            in_virtual(n.0 as int),
        ensures
            h.0 == self@.head[n.0 as int],
            in_virtual(h.0 as int),
            self@.head[h.0 as int] == h.0,
    {
        proof {
            lemma_head_of_head(self@, n.0 as int);
        }
        self.string_head[n.as_index()]
    }

    // The counters of the string of the cell `vertex`.
    fn string_ref(&self, vertex: Vertex) -> (s: &String)
        requires
            self.settled(),
            in_virtual(vertex.0 as int),
        ensures
            s@.count == self@.summary(self@.head[vertex.0 as int], 0),
            s@.sum == self@.summary(self@.head[vertex.0 as int], 1),
            s@.sum_squared == self@.summary(self@.head[vertex.0 as int], 2),
            s@.in_atari() == self@.in_atari(self@.head[vertex.0 as int]),
            self@.has_stone(vertex.0 as int) ==> s@.num_stones == self@.chains[self@.head[vertex.0 as int]].len() && s@.color
                == self@.board[vertex.0 as int],
    {
        proof {
            let pos = self@;
            let v = vertex.0 as int;
            let h = pos.head[v];
            lemma_head_of_head(pos, v);
            assert(pos.head[h] == h && 0 <= h < 441);
            assert(string_views(self.strings@)[h] == self.strings@[h]@);
        }
        let h = self.string_head[vertex.as_index()];
        &self.strings[h.as_index()]
    }

    /// The counters of the string of the cell `vertex`.
    pub fn string(&self, vertex: Vertex) -> (s: &String)
        requires
            self.wf(),
            in_virtual(vertex.0 as int),
        ensures
            s@.count == self@.summary(self@.head[vertex.0 as int], 0),
            s@.sum == self@.summary(self@.head[vertex.0 as int], 1),
            s@.sum_squared == self@.summary(self@.head[vertex.0 as int], 2),
            s@.in_atari() == self@.in_atari(self@.head[vertex.0 as int]),
            self@.has_stone(vertex.0 as int) ==> s@.num_stones == self@.chains[self@.head[vertex.0 as int]].len() && s@.color
                == self@.board[vertex.0 as int],
    {
        self.string_ref(vertex)
    }

    /// Number of pseudo-liberties of the string of the cell `vertex`: the
    /// pairs of a stone of the string and an empty neighbour of it. For an
    /// empty cell, the number of its empty neighbours.
    pub fn num_pseudo_liberties(&self, vertex: Vertex) -> (n: u16)
        requires
            self.wf(),
            in_virtual(vertex.0 as int),
        ensures
            n == self@.summary(self@.head[vertex.0 as int], 0),
    {
        self.string(vertex).pseudo_liberties()
    }

    // Whether the string of the cell `vertex` has no liberty.
    fn dead(&self, vertex: Vertex) -> (r: bool)
        requires
            self.settled(),
            in_virtual(vertex.0 as int),
        ensures
            r == self@.dead(self@.head[vertex.0 as int]),
    {
        self.string_ref(vertex).pseudo_liberties() == 0
    }

    // Whether the cell `n` holds a stone of the string with head `head`.
    fn in_string_at(&self, n: Vertex, head: Vertex) -> (r: bool)
        requires
            self.wf(),
            in_virtual(n.0 as int),
        ensures
            r == self@.in_string(n.0 as int, head.0 as int),
    {
        let s = self.board[n.as_index()];
        (s == Stone::Black || s == Stone::White) && self.string_head[n.as_index()] == head
    }

    /// The liberties of the string of the stone at `vertex`, each once, in
    /// ascending order; none for a cell without a stone.
    pub fn liberties(&self, vertex: Vertex) -> (r: Vec<Vertex>)
        requires
            self.wf(),
        ensures
            indices(r@) == self@.liberties(vertex.0 as int),
    {
        let mut r: Vec<Vertex> = Vec::new();
        if vertex.0 < 0 || vertex.0 >= 441 {
            return r;
        }
        let s = self.board[vertex.as_index()];
        if s != Stone::Black && s != Stone::White {
            return r;
        }
        let head = self.head_at(vertex);
        let ghost h = head.0 as int;
        let mut w: i16 = 0;
        while w < 441
            invariant
                0 <= w <= 441,
                self.wf(),
                h == head.0,
                indices(r@) == self@.liberties_upto(h, w as int),
            decreases 441 - w,
        {
            let cellv = Vertex(w);
            if self.board[cellv.as_index()] == Stone::Empty {
                proof {
                    assert(on_board(self@.size, w as int));
                    lemma_on_board_interior(self@.size, w as int);
                }
                let ns = neighbours(cellv);
                if self.in_string_at(ns[0], head) || self.in_string_at(ns[1], head) || self.in_string_at(ns[2], head) || self.in_string_at(
                    ns[3],
                    head,
                ) {
                    r.push(cellv);
                    assert(indices(r@) =~= self@.liberties_upto(h, w as int).push(w as int));
                }
            }
            w += 1;
        }
        r
    }

    /// The stones of the string of the stone at `vertex`, in the order of
    /// its chain from `vertex` on; none for a cell without a stone.
    #[verifier::rlimit(50)]
    pub fn group(&self, vertex: Vertex) -> (r: Vec<Vertex>)
        requires
            self.wf(),
        ensures
            indices(r@) == (if self@.has_stone(vertex.0 as int) { self@.chain_from(vertex.0 as int) } else { Seq::<int>::empty() }),
    {
        let mut stones: Vec<Vertex> = Vec::new();
        if vertex.0 < 0 || vertex.0 >= 441 {
            assert(indices(stones@) =~= Seq::<int>::empty());
            return stones;
        }
        let s = self.board[vertex.as_index()];
        if s != Stone::Black && s != Stone::White {
            assert(indices(stones@) =~= Seq::<int>::empty());
            return stones;
        }
        let ghost pos = self@;
        let ghost next0 = indices(self.string_next_v@);
        let ghost nn = vertex.0 as int;
        let ghost h = pos.head[nn];
        let ghost c = pos.chains[h];
        let ghost start = c.index_of(nn);
        let ghost r = rotate(c, start);
        let ghost len = c.len() as int;
        proof {
            lemma_head_of_head(pos, nn);
            assert(c.contains(nn));
            assert(0 <= start < len && c[start] == nn);
            lemma_rotate_distinct(c, start);
            assert(chain_linked(c, next0));
            lemma_rotate_links(c, next0, start);
            assert forall|t: int| 0 <= t < len implies 0 <= #[trigger] r[t] < 441 by {
                lemma_rotate_at(c, start, t);
            }
            assert(indices(stones@) =~= r.subrange(0, 0));
        }
        let mut cur = vertex;
        let ghost t: int = 0;
        loop
            invariant_except_break
                0 <= t < len,
                cur.0 == r[t],
            invariant
                self.wf(),
                next0 == indices(self.string_next_v@),
                nn == vertex.0,
                r.len() == len,
                r[0] == nn,
                r.no_duplicates(),
                chain_linked(r, next0),
                forall|t2: int| 0 <= t2 < len ==> 0 <= #[trigger] r[t2] < 441,
                0 <= t <= len,
                indices(stones@) == r.subrange(0, t),
            ensures
                t == len,
            decreases len - t,
        {
            let ghost t0 = t;
            let ghost listed = indices(stones@);
            stones.push(cur);
            proof {
                assert(indices(stones@) =~= listed.push(r[t0]));
                assert(r.subrange(0, t0 + 1) =~= r.subrange(0, t0).push(r[t0]));
                assert(link_ok(r, next0, t0));
                assert(next0[r[t0]] == self.string_next_v@[r[t0]].0);
            }
            cur = self.string_next_v[cur.as_index()];
            proof {
                t = t + 1;
            }
            if cur == vertex {
                proof {
                    if t < len {
                        assert(r[t] != r[0]);
                    }
                }
                break;
            }
            proof {
                if t == len {
                    assert(wrap_next(t0, len) == 0);
                }
            }
        }
        proof {
            assert(r.subrange(0, len) =~= r);
        }
        stones
    }

    // ----- legal moves -----

    // Whether the neighbour `n` holds neither an opponent stone nor nothing.
    fn own_or_border_at(&self, stone: Stone, n: Vertex) -> (r: bool)
        requires
            self.wf(),
        ensures
            r == self@.own_or_border(stone, n.0 as int),
    {
        let s = self.stone_at(n);
        !(s == stone.opponent() || s == Stone::Empty)
    }

    // Whether `n` holds a stone of `stone` whose string is not in atari.
    fn joins_safe_string_at(&self, stone: Stone, n: Vertex) -> (r: bool)
        requires
            self.wf(),
            in_virtual(n.0 as int),
        ensures
            r == self@.joins_safe_string(stone, n.0 as int),
    {
        self.stone_at(n) == stone && !self.string(n).in_atari()
    }

    // Whether `n` holds an opponent stone whose string is in atari.
    fn captures_string_at(&self, stone: Stone, n: Vertex) -> (r: bool)
        requires
            self.wf(),
            in_virtual(n.0 as int),
        ensures
            r == self@.captures_string(stone, n.0 as int),
    {
        self.stone_at(n) == stone.opponent() && self.string(n).in_atari()
    }

    // Whether the empty cell `vertex` is an eye of `stone`.
    fn eye_like_at(&self, stone: Stone, vertex: Vertex) -> (r: bool)
        requires
            self.wf(),
            22 <= vertex.0 <= 418,
        ensures
            r == self@.eye_like(stone, vertex.0 as int),
    {
        let ns = neighbours(vertex);
        let surrounded = self.own_or_border_at(stone, ns[0]) && self.own_or_border_at(stone, ns[1]) && self.own_or_border_at(stone, ns[2])
            && self.own_or_border_at(stone, ns[3]);
        if !surrounded {
            return false;
        }
        let ds = diag_neighbours(vertex);
        let opponent = stone.opponent();
        let mut enemy_count: u8 = 0;
        let mut border: u8 = 0;
        let mut k: usize = 0;
        while k < 4
            invariant
                0 <= k <= 4,
                self.wf(),
                opponent == stone.spec_opponent(),
                forall|j: int| 0 <= j < 4 ==> (#[trigger] ds[j]).0 == diag(vertex.0 as int, j),
                enemy_count == (if k > 0 && cell(self@.board, diag(vertex.0 as int, 0)) == opponent { 1int } else { 0 }) + (if k > 1 && cell(
                    self@.board,
                    diag(vertex.0 as int, 1),
                ) == opponent { 1int } else { 0 }) + (if k > 2 && cell(self@.board, diag(vertex.0 as int, 2)) == opponent { 1int } else { 0 }) + (if k
                    > 3 && cell(self@.board, diag(vertex.0 as int, 3)) == opponent { 1int } else { 0 }),
                border == (if (k > 0 && self@.border_diagonal(stone, diag(vertex.0 as int, 0))) || (k > 1 && self@.border_diagonal(
                    stone,
                    diag(vertex.0 as int, 1),
                )) || (k > 2 && self@.border_diagonal(stone, diag(vertex.0 as int, 2))) || (k > 3 && self@.border_diagonal(
                    stone,
                    diag(vertex.0 as int, 3),
                )) { 1int } else { 0 }),
            decreases 4 - k,
        {
            let s = self.stone_at(ds[k]);
            if s == opponent {
                enemy_count += 1;
            } else if s == Stone::Border {
                border = 1;
            }
            k += 1;
        }
        enemy_count + border < 2
    }

    /// Whether `stone` may be placed at `vertex`.
    pub fn can_play(&self, stone: Stone, vertex: Vertex) -> (r: bool)
        requires
            self.wf(),
        ensures
            r == self@.can_play(stone, vertex.0 as int),
    {
        if vertex.0 == -1 {
            return true;
        }
        // Can't play if the vertex is not empty or would be ko.
        if self.stone_at(vertex) != Stone::Empty || vertex.0 == self.ko_vertex.0 {
            return false;
        }
        proof {
            let v = vertex.0 as int;
            assert(self@.board[v] == Stone::Empty);
            assert(on_board(self@.size, v));
            lemma_on_board_interior(self@.size, v);
            lemma_empty_cell_summary(self@, v, 0);
            assert(self@.head[v] == v);
        }
        // Can definitely play if the placed stone will have at least one
        // direct freedom.
        if self.string(vertex).pseudo_liberties() > 0 {
            return true;
        }
        // Don't allow to destroy eye-like points.
        if self.eye_like_at(stone, vertex) {
            return false;
        }
        let ns = neighbours(vertex);
        // Allow to play if the placed stone connects to a group that still
        // has at least one other liberty after connecting.
        if self.joins_safe_string_at(stone, ns[0]) || self.joins_safe_string_at(stone, ns[1]) || self.joins_safe_string_at(stone, ns[2])
            || self.joins_safe_string_at(stone, ns[3]) {
            return true;
        }
        // Allow to play if the placed stone will kill at least one group.
        self.captures_string_at(stone, ns[0]) || self.captures_string_at(stone, ns[1]) || self.captures_string_at(stone, ns[2])
            || self.captures_string_at(stone, ns[3])
    }

    /// The empty cells that `stone` may play, in the order of the list of
    /// empty cells.
    pub fn possible_moves(&self, stone: Stone) -> (r: Vec<Vertex>)
        requires
            self.wf(),
        ensures
            indices(r@) == self@.possible_moves(stone),
    {
        let mut r: Vec<Vertex> = Vec::new();
        let mut i: usize = 0;
        while i < self.empty_vertices.len()
            invariant
                0 <= i <= self.empty_vertices@.len(),
                self.wf(),
                indices(r@) == self@.moves_upto(stone, i as int),
            decreases self.empty_vertices@.len() - i,
        {
            let v = self.empty_vertices[i];
            assert(self@.empties[i as int] == v.0);
            if self.can_play(stone, v) {
                r.push(v);
                assert(indices(r@) =~= self@.moves_upto(stone, i as int).push(v.0 as int));
            }
            i += 1;
        }
        r
    }

    /// The first cell that `stone` may play, trying the empty cells in
    /// cyclic order from position `start` of their list; the pass if there
    /// is none or the list has no such position.
    #[verifier::rlimit(60)]
    pub fn first_legal_from(&self, stone: Stone, start: usize) -> (v: Vertex)
        requires
            self.wf(),
        ensures
            v.0 == self@.move_from(stone, start as int),
            v.0 != -1 ==> self@.empties.contains(v.0 as int) && self@.can_play(stone, v.0 as int),
            v.0 == -1 && start < self@.empties.len() ==> forall|j: int| 0 <= j < self@.empties.len() ==> !self@.can_play(stone, #[trigger] self@.empties[j]),
    {
        let num_empty = self.empty_vertices.len();
        if start >= num_empty {
            return Vertex::pass();
        }
        let mut i: usize = start;
        let ghost done: int = 0;
        loop
            invariant
                self.wf(),
                num_empty == self@.empties.len(),
                0 <= start < num_empty,
                0 <= i < num_empty,
                0 <= done < num_empty,
                i == (if start + done >= num_empty { start + done - num_empty } else { start + done }),
                self@.move_from(stone, start as int) == self@.first_legal(stone, i as int, num_empty - done),
            decreases num_empty - done,
        {
            let v = self.empty_vertices[i];
            let ghost i0 = i;
            assert(self@.empties[i as int] == v.0);
            if self.can_play(stone, v) {
                return v;
            }
            i += 1;
            if i == num_empty {
                i = 0;
            }
            proof {
                assert(!self@.can_play(stone, self@.empties[i0 as int]));
                assert(self@.next_index(i0 as int) == i);
                assert(self@.first_legal(stone, i0 as int, num_empty - done) == self@.first_legal(stone, i as int, num_empty - done - 1));
                done = done + 1;
            }
            if i == start {
                assert(done == num_empty);
                assert(self@.first_legal(stone, i as int, 0) == -1);
                proof {
                    lemma_no_legal_move(self@, stone, start as int);
                }
                return Vertex::pass();
            }
        }
    }

    /// A legal move of `stone` drawn at random: the first legal cell in
    /// cyclic order from a random position of the list of empty cells; the
    /// pass if no cell is legal.
    pub fn random_move(&self, stone: Stone, rng: &mut rand::StdRng) -> (v: Vertex)
        requires
            self.wf(),
        ensures
            self@.empties.len() == 0 ==> v.0 == -1,
            self@.empties.len() > 0 ==> exists|start: int| 0 <= start < self@.empties.len() && v.0 == self@.move_from(stone, start),
            v.0 != -1 ==> self@.empties.contains(v.0 as int) && self@.can_play(stone, v.0 as int),
            v.0 == -1 ==> forall|j: int| 0 <= j < self@.empties.len() ==> !self@.can_play(stone, #[trigger] self@.empties[j]),
    {
        let num_empty = self.empty_vertices.len();
        if num_empty == 0 {
            return Vertex::pass();
        }
        let start = random_below(rng, num_empty);
        self.first_legal_from(stone, start)
    }

    // ----- scoring -----

    // Whether all four neighbours of the cell `vertex` count for `stone`.
    fn surrounded_by_at(&self, stone: Stone, vertex: Vertex) -> (r: bool)
        requires
            self.wf(),
            22 <= vertex.0 <= 418,
        ensures
            r == self@.surrounded_by(stone, vertex.0 as int),
    {
        let ns = neighbours(vertex);
        let opponent = stone.opponent();
        let s0 = self.stone_at(ns[0]);
        let s1 = self.stone_at(ns[1]);
        let s2 = self.stone_at(ns[2]);
        let s3 = self.stone_at(ns[3]);
        s0 != Stone::Empty && s0 != opponent && s1 != Stone::Empty && s1 != opponent && s2 != Stone::Empty && s2 != opponent && s3
            != Stone::Empty && s3 != opponent
    }

    /// Area score from Black's side.
    pub fn chinese_score(&self) -> (r: i16)
        requires
            self.wf(),
        ensures
            r == self@.chinese_score(),
    {
        proof {
            lemma_count_bounds(self@.board, Stone::Black, 441);
            lemma_count_bounds(self@.board, Stone::White, 441);
            assert(self.size * self.size <= 361) by (nonlinear_arith)
                requires
                    self.size <= 19,
            ;
        }
        let num_white_stones: i16 = (self.size * self.size) as i16 - self.num_black_stones - self.empty_vertices.len() as i16;
        let mut eye_score: i16 = 0;
        let mut i: usize = 0;
        while i < self.empty_vertices.len()
            invariant
                0 <= i <= self.empty_vertices@.len(),
                self.empty_vertices@.len() <= 441,
                self.wf(),
                eye_score == self@.eyes_upto(i as int),
                -(i as int) <= eye_score <= i,
            decreases self.empty_vertices@.len() - i,
        {
            let v = self.empty_vertices[i];
            proof {
                assert(self@.empties[i as int] == v.0);
                assert(on_board(self@.size, v.0 as int));
                lemma_on_board_interior(self@.size, v.0 as int);
            }
            if self.surrounded_by_at(Stone::Black, v) {
                eye_score += 1;
            } else if self.surrounded_by_at(Stone::White, v) {
                eye_score -= 1;
            }
            i += 1;
        }
        self.num_black_stones - num_white_stones + eye_score
    }

    // ----- playing a move -----

    // Puts `stone` into the cell `vertex` and keeps the list of empty cells
    // and the number of black stones up to date. Either the cell is empty
    // and gets a stone, or it holds a stone and becomes empty.
    #[verifier::rlimit(50)]
    fn set_stone(&mut self, stone: Stone, vertex: Vertex)
        requires
            old(self).sized(),
            listing_ok(old(self)@, old(self).empty_v_index@, old(self).num_black_stones as int),
            on_board(old(self).size as int, vertex.0 as int),
            stone != Stone::Border,
            (stone == Stone::Empty) != (old(self).board@[vertex.0 as int] == Stone::Empty),
        ensures
            final(self).sized(),
            listing_ok(final(self)@, final(self).empty_v_index@, final(self).num_black_stones as int),
            final(self).same_but_cells(old(self)),
            final(self).board@ == old(self).board@.update(vertex.0 as int, stone),
            stone == Stone::Empty ==> final(self)@.empties == old(self)@.empties.push(vertex.0 as int),
            stone != Stone::Empty ==> final(self)@.empties == old(self)@.placed(stone, vertex.0 as int).empties,
    {
        let idx = vertex.as_index();
        let ghost pos0 = self@;
        let ghost v = vertex.0 as int;
        let old_stone = self.board[idx];
        proof {
            lemma_count_bounds(pos0.board, Stone::Black, 441);
            lemma_count_bounds(pos0.board, Stone::White, 441);
            lemma_count_update(pos0.board, v, stone, Stone::Black, 441);
            lemma_count_update(pos0.board, v, stone, Stone::White, 441);
            lemma_count_bounds(pos0.board.update(v, stone), Stone::Black, 441);
            lemma_count_bounds(pos0.board.update(v, stone), Stone::White, 441);
        }
        // Place new stone..
        self.board[idx] = stone;
        // Update empty vertex list.
        if stone == Stone::Empty {
            proof {
                assert(pos0.size * pos0.size <= 361) by (nonlinear_arith)
                    requires
                        0 <= pos0.size <= 19,
                ;
            }
            self.empty_v_index[idx] = self.empty_vertices.len();
            self.empty_vertices.push(vertex);
            proof {
                let pos1 = self@;
                assert(pos1.empties =~= pos0.empties.push(v));
                assert forall|i: int, j: int| 0 <= i < pos1.empties.len() && 0 <= j < pos1.empties.len() && i != j implies pos1.empties[i] != pos1.empties[j] by {
                    if i < pos0.empties.len() {
                        assert(pos0.board[pos0.empties[i]] == Stone::Empty);
                    }
                    if j < pos0.empties.len() {
                        assert(pos0.board[pos0.empties[j]] == Stone::Empty);
                    }
                }
                assert forall|u: int| 0 <= u < 441 && #[trigger] pos1.board[u] == Stone::Empty implies pos1.empties.contains(u) by {
                    if u == v {
                        assert(pos1.empties[pos0.empties.len() as int] == v);
                    } else {
                        assert(pos0.board[u] == Stone::Empty);
                        let j = pos0.empties.index_of(u);
                        assert(pos1.empties[j] == u);
                    }
                }
                assert forall|i: int| 0 <= i < pos1.empties.len() implies 0 <= #[trigger] pos1.empties[i] < 441 && self.empty_v_index@[pos1.empties[i]] == i by {
                    if i < pos0.empties.len() {
                        assert(pos0.board[pos0.empties[i]] == Stone::Empty);
                    }
                }
            }
        } else {
            proof {
                assert(pos0.empties.contains(v));
            }
            let i = self.empty_v_index[idx];
            let ghost i0 = pos0.empties.index_of(v);
            proof {
                assert(self.empty_v_index@[pos0.empties[i0]] == i0);
            }
            let last = self.empty_vertices[self.empty_vertices.len() - 1];
            proof {
                assert(pos0.empties[pos0.empties.len() - 1] == last.0);
                assert(pos0.board[last.0 as int] == Stone::Empty);
            }
            self.empty_v_index[last.as_index()] = i;
            self.empty_vertices.swap_remove(i);
            proof {
                let pos1 = self@;
                let n = pos0.empties.len() as int;
                assert(pos1.empties =~= pos0.empties.update(i as int, pos0.empties.last()).drop_last());
                assert forall|a: int| 0 <= a < pos1.empties.len() implies 0 <= #[trigger] pos1.empties[a] < 441 && self.empty_v_index@[pos1.empties[a]] == a
                    && pos1.board[pos1.empties[a]] == Stone::Empty by {
                    if a == i {
                        assert(pos1.empties[a] == pos0.empties[n - 1]);
                    } else {
                        assert(pos1.empties[a] == pos0.empties[a]);
                        assert(pos0.board[pos0.empties[a]] == Stone::Empty);
                    }
                }
                assert forall|a: int, b: int| 0 <= a < pos1.empties.len() && 0 <= b < pos1.empties.len() && a != b implies pos1.empties[a] != pos1.empties[b] by {
                    assert(self.empty_v_index@[pos1.empties[a]] == a);
                    assert(self.empty_v_index@[pos1.empties[b]] == b);
                }
                assert forall|u: int| 0 <= u < 441 && #[trigger] pos1.board[u] == Stone::Empty implies pos1.empties.contains(u) by {
                    assert(pos0.board[u] == Stone::Empty && u != v);
                    let j = pos0.empties.index_of(u);
                    if j == n - 1 {
                        assert(pos1.empties[i as int] == u);
                    } else {
                        assert(pos1.empties[j] == u);
                    }
                }
            }
        }
        // Update stone count for scoring.
        if old_stone == Stone::Black {
            self.num_black_stones -= 1;
        } else if stone == Stone::Black {
            self.num_black_stones += 1;
        }
    }

    // Sets up the cell `vertex` as a string of its own with `num_stones`
    // stones of `color` and counts its empty neighbours.
    fn init_new_string(&mut self, vertex: Vertex, color: Stone, num_stones: u16)
        requires
            old(self).sized(),
            22 <= vertex.0 <= 418,
        ensures
            final(self).sized(),
            final(self).size == old(self).size,
            final(self).board == old(self).board,
            final(self).empty_vertices == old(self).empty_vertices,
            final(self).empty_v_index == old(self).empty_v_index,
            final(self).num_black_stones == old(self).num_black_stones,
            final(self).ko_vertex == old(self).ko_vertex,
            final(self).to_play == old(self).to_play,
            final(self).history == old(self).history,
            final(self).chains == old(self).chains,
            final(self).string_head@ == old(self).string_head@.update(vertex.0 as int, vertex),
            final(self).string_next_v@ == old(self).string_next_v@.update(vertex.0 as int, vertex),
            final(self).strings@.len() == 441,
            forall|j: int| 0 <= j < 441 && j != vertex.0 ==> final(self).strings@[j] == old(self).strings@[j],
            (final(self).strings@[vertex.0 as int])@ == (StringView {
                color: color,
                num_stones: num_stones as nat,
                count: cell_liberties(old(self).board@, vertex.0 as int, 0) as nat,
                sum: cell_liberties(old(self).board@, vertex.0 as int, 1) as nat,
                sum_squared: cell_liberties(old(self).board@, vertex.0 as int, 2) as nat,
            }),
    {
        let idx = vertex.as_index();
        self.strings[idx].reset();
        self.count_cell(vertex);
        self.strings[idx].set_stones(color, num_stones);
        self.string_head[idx] = vertex;
        self.string_next_v[idx] = vertex;
        proof {
            lemma_cell_liberties_full(self.board@, vertex.0 as int, 0);
            lemma_cell_liberties_full(self.board@, vertex.0 as int, 1);
            lemma_cell_liberties_full(self.board@, vertex.0 as int, 2);
        }
    }

    // Adds the empty neighbours of the cell `v` to the counters of the
    // string with head `target`.
    fn add_neighbour_liberties(&mut self, v: Vertex, target: Vertex)
        requires
            old(self).sized(),
            22 <= v.0 <= 418,
            in_virtual(target.0 as int),
            (old(self).strings@[target.0 as int])@.count <= 4000,
            (old(self).strings@[target.0 as int])@.sum <= 2000000,
            (old(self).strings@[target.0 as int])@.sum_squared <= 1000000000,
        ensures
            final(self).sized(),
            final(self).same_but_strings(old(self)),
            forall|j: int| 0 <= j < 441 && j != target.0 ==> final(self).strings@[j] == old(self).strings@[j],
            (final(self).strings@[target.0 as int])@ == (StringView {
                count: ((old(self).strings@[target.0 as int])@.count + cell_liberties(old(self).board@, v.0 as int, 0)) as nat,
                sum: ((old(self).strings@[target.0 as int])@.sum + cell_liberties(old(self).board@, v.0 as int, 1)) as nat,
                sum_squared: ((old(self).strings@[target.0 as int])@.sum_squared + cell_liberties(old(self).board@, v.0 as int, 2)) as nat,
                ..(old(self).strings@[target.0 as int])@
            }),
    {
        let idx = v.as_index();
        let t = target.as_index();
        let ns = neighbours(v);
        let ghost before = self.strings@[target.0 as int]@;
        let mut k: usize = 0;
        while k < 4
            invariant
                0 <= k <= 4,
                idx == v.0,
                t == target.0,
                0 <= t < 441,
                22 <= idx <= 418,
                forall|j: int| 0 <= j < 4 ==> (#[trigger] ns[j]).0 == nbr(v.0 as int, j),
                self.sized(),
                self.same_but_strings(old(self)),
                before == (old(self).strings@[target.0 as int])@,
                before.count <= 4000,
                before.sum <= 2000000,
                before.sum_squared <= 1000000000,
                forall|j: int| 0 <= j < 441 && j != target.0 ==> self.strings@[j] == old(self).strings@[j],
                (self.strings@[t as int])@ == (StringView {
                    count: (before.count + cell_liberties_upto(self.board@, idx as int, 0, 4 * idx + k)) as nat,
                    sum: (before.sum + cell_liberties_upto(self.board@, idx as int, 1, 4 * idx + k)) as nat,
                    sum_squared: (before.sum_squared + cell_liberties_upto(self.board@, idx as int, 2, 4 * idx + k)) as nat,
                    ..before
                }),
            decreases 4 - k,
        {
            let n = ns[k];
            proof {
                assert(n.0 == nbr(v.0 as int, k as int));
                lemma_weight_bounds(nbr(idx as int, 0), 2);
                lemma_weight_bounds(nbr(idx as int, 1), 2);
                lemma_weight_bounds(nbr(idx as int, 2), 2);
                lemma_weight_bounds(nbr(idx as int, 3), 2);
            }
            if self.board[n.as_index()] == Stone::Empty {
                self.strings[t].add_liberty(n);
            }
            k += 1;
        }
        proof {
            lemma_cell_liberties_full(self.board@, idx as int, 0);
            lemma_cell_liberties_full(self.board@, idx as int, 1);
            lemma_cell_liberties_full(self.board@, idx as int, 2);
        }
    }

    // The largest string of `stone` next to `vertex`: its head, or the pass
    // without one, and its number of stones.
    fn largest_neighbour(&self, vertex: Vertex, stone: Stone) -> (r: (Vertex, u16))
        requires
            self.settled(),
            22 <= vertex.0 <= 418,
            stone.is_color(),
        ensures
            (r.0.0 as int, r.1 as int) == self@.largest_upto(stone, vertex.0 as int, 4),
            r.1 > 0 ==> in_virtual(r.0.0 as int) && self@.head[r.0.0 as int] == r.0.0 && self@.board[r.0.0 as int] == stone,
            r.1 > 0 ==> self@.friend_head_upto(stone, vertex.0 as int, r.0.0 as int, 4),
            r.1 == 0 ==> forall|j: int| 0 <= j < 4 ==> cell(self@.board, #[trigger] nbr(vertex.0 as int, j)) != stone,
    {
        let ns = neighbours(vertex);
        let mut largest_group_head = Vertex::pass();
        let mut largest_group_size: u16 = 0;
        let mut k: usize = 0;
        while k < 4
            invariant
                0 <= k <= 4,
                self.settled(),
                22 <= vertex.0 <= 418,
                stone.is_color(),
                forall|j: int| 0 <= j < 4 ==> (#[trigger] ns[j]).0 == nbr(vertex.0 as int, j),
                (largest_group_head.0 as int, largest_group_size as int) == self@.largest_upto(stone, vertex.0 as int, k as int),
                largest_group_size > 0 ==> in_virtual(largest_group_head.0 as int) && self@.head[largest_group_head.0 as int] == largest_group_head.0
                    && self@.board[largest_group_head.0 as int] == stone,
                largest_group_size > 0 ==> self@.friend_head_upto(stone, vertex.0 as int, largest_group_head.0 as int, k as int),
                largest_group_size == 0 ==> forall|j: int| 0 <= j < k ==> cell(self@.board, #[trigger] nbr(vertex.0 as int, j)) != stone,
            decreases 4 - k,
        {
            let n = ns[k];
            assert(n.0 == nbr(vertex.0 as int, k as int));
            if self.board[n.as_index()] == stone {
                let h = self.head_at(n);
                proof {
                    lemma_head_of_head(self@, n.0 as int);
                    assert(string_views(self.strings@)[h.0 as int] == self.strings@[h.0 as int]@);
                }
                let size = self.strings[h.as_index()].stones();
                if size > largest_group_size {
                    largest_group_size = size;
                    largest_group_head = h;
                }
            }
            k += 1;
        }
        (largest_group_head, largest_group_size)
    }

    // Joins the string of the stone `n` to the string with head `s`.
    #[verifier::rlimit(50)]
    fn merge_into(&mut self, n: Vertex, s: Vertex)
        requires
            old(self).settled(),
            in_virtual(n.0 as int),
            in_virtual(s.0 as int),
            old(self)@.has_stone(n.0 as int),
            old(self)@.has_stone(s.0 as int),
            old(self)@.board[s.0 as int] == old(self)@.board[n.0 as int],
            old(self)@.head[s.0 as int] == s.0,
            old(self)@.head[n.0 as int] != s.0,
        ensures
            final(self).settled(),
            final(self)@ == old(self)@.merged(n.0 as int, s.0 as int),
    {
        let ghost pos = self@;
        let ghost next0 = indices(self.string_next_v@);
        let ghost views0 = string_views(self.strings@);
        let ghost nn = n.0 as int;
        let ghost ss = s.0 as int;
        let ghost hb = pos.head[nn];
        let ghost b = pos.chains[hb];
        let ghost start = b.index_of(nn);
        let ghost r = rotate(b, start);
        let ghost lb = b.len() as int;
        proof {
            lemma_head_of_head(pos, nn);
            assert(b.contains(nn));
            assert(0 <= start < lb && b[start] == nn);
            lemma_rotate_distinct(b, start);
            assert(chain_linked(b, next0));
            lemma_rotate_links(b, next0, start);
            lemma_chain_length(b);
            assert forall|t: int| 0 <= t < lb implies 0 <= #[trigger] r[t] < 441 && pos.head[r[t]] == hb by {
                lemma_rotate_at(b, start, t);
            }
        }
        let small_head = self.string_head[n.as_index()];
        // Set all the stones in the smaller string to be part of the larger
        // string.
        let mut cur = n;
        let ghost t: int = 0;
        loop
            invariant_except_break
                0 <= t < lb,
                cur.0 == r[t],
            invariant
                self.sized(),
                self.size == old(self).size,
                self.board == old(self).board,
                self.strings == old(self).strings,
                self.string_next_v == old(self).string_next_v,
                self.empty_vertices == old(self).empty_vertices,
                self.empty_v_index == old(self).empty_v_index,
                self.num_black_stones == old(self).num_black_stones,
                self.ko_vertex == old(self).ko_vertex,
                self.to_play == old(self).to_play,
                self.history == old(self).history,
                self.chains == old(self).chains,
                pos == old(self)@,
                next0 == indices(old(self).string_next_v@),
                in_virtual(nn),
                nn == n.0,
                ss == s.0,
                in_virtual(ss),
                hb == pos.head[nn],
                hb != ss,
                b == pos.chains[hb],
                r == rotate(b, start),
                lb == b.len(),
                1 <= lb <= 441,
                r.len() == lb,
                r[0] == nn,
                r.no_duplicates(),
                chain_linked(r, next0),
                forall|t2: int| 0 <= t2 < lb ==> 0 <= #[trigger] r[t2] < 441 && pos.head[r[t2]] == hb,
                0 <= t <= lb,
                forall|t2: int| 0 <= t2 < t ==> self.string_head@[#[trigger] r[t2]].0 == ss,
                forall|w: int| 0 <= w < 441 ==> (#[trigger] self.string_head@[w]).0 == pos.head[w] || (self.string_head@[w].0 == ss && pos.head[w] == hb),
            ensures
                t == lb,
            decreases lb - t,
        {
            let ghost t0 = t;
            self.string_head[cur.as_index()] = s;
            proof {
                assert(link_ok(r, next0, t0));
                assert(next0[r[t0]] == self.string_next_v@[r[t0]].0);
            }
            cur = self.string_next_v[cur.as_index()];
            proof {
                t = t + 1;
                assert forall|t2: int| 0 <= t2 < t implies self.string_head@[#[trigger] r[t2]].0 == ss by {
                    if t2 < t0 {
                        assert(r[t2] != r[t0]);
                    }
                }
            }
            if cur == n {
                proof {
                    if t < lb {
                        assert(r[t] != r[0]);
                    }
                }
                break;
            }
            proof {
                if t == lb {
                    assert(wrap_next(t0, lb) == 0);
                }
            }
        }
        // Connect the two linked lists representing the stones in the two
        // strings.
        let tmp = self.string_next_v[s.as_index()];
        self.string_next_v[s.as_index()] = self.string_next_v[n.as_index()];
        self.string_next_v[n.as_index()] = tmp;
        let small = self.strings[small_head.as_index()];
        proof {
            lemma_merged_structure(pos, next0, views0, nn, ss, views0[ss].merged(views0[hb]));
            assert(views0[ss] == old(self).strings@[ss]@);
            assert(views0[hb] == old(self).strings@[hb]@);
            lemma_total_bounds(pos.board, pos.head, ss);
            lemma_total_bounds(pos.board, pos.head, hb);
            assert(on_board(pos.size, ss));
            assert(on_board(pos.size, hb));
        }
        self.strings[s.as_index()].merge(&small);
        proof {
            let new = pos.merged(nn, ss);
            let views1 = string_views(self.strings@);
            let next1 = indices(self.string_next_v@);
            assert(self@.head =~= new.head) by {
                assert forall|w: int| 0 <= w < 441 implies self@.head[w] == new.head[w] by {
                    if pos.head[w] == hb {
                        assert(pos.has_stone(w)) by {
                            if !pos.has_stone(w) {
                                assert(pos.head[w] == w);
                            }
                        }
                        assert(b.contains(w));
                        let j = b.index_of(w);
                        lemma_rotate_of(b, start, j);
                        let t2 = unturned(start, j, lb);
                        assert(r[t2] == w);
                    }
                }
            }
            self.chains = Ghost(new.chains);
            assert(self@ == new);
            assert(next1 =~= next0.update(ss, next0[nn]).update(nn, next0[ss]));
            assert(views1 =~= views0.update(ss, views0[ss].merged(views0[hb]))) by {
                assert forall|x: int| 0 <= x < 441 implies views1[x] == views0.update(ss, views0[ss].merged(views0[hb]))[x] by {
                    assert(views1[x] == self.strings@[x]@);
                    assert(views0[x] == old(self).strings@[x]@);
                }
            }
            assert(structure_ok(Position { board: self.board@, ..self@ }, next1, views1));
            assert forall|x: int| 0 <= x < 441 && new.head[x] == x implies {
                &&& (#[trigger] views1[x]).count == base(self.size as int, x, 0) + total(self.board@, new.head, x, 0) + 0 * pending(new.head, x, 0, 0, 4)
                &&& views1[x].sum == base(self.size as int, x, 1) + total(self.board@, new.head, x, 1) + 0 * pending(new.head, x, 0, 1, 4)
                &&& views1[x].sum_squared == base(self.size as int, x, 2) + total(self.board@, new.head, x, 2) + 0 * pending(new.head, x, 0, 2, 4)
            } by {
                lemma_lsum_relabel(pos.board, pos.head, new.head, hb, ss, x, 0, num_incidences());
                lemma_lsum_relabel(pos.board, pos.head, new.head, hb, ss, x, 1, num_incidences());
                lemma_lsum_relabel(pos.board, pos.head, new.head, hb, ss, x, 2, num_incidences());
                assert(pos.head[x] == x);
                assert(views0[x].count == base(pos.size, x, 0) + total(pos.board, pos.head, x, 0));
                if x == ss {
                    assert(views0[hb].count == base(pos.size, hb, 0) + total(pos.board, pos.head, hb, 0));
                }
            }
            assert(listing_ok(self@, self.empty_v_index@, self.num_black_stones as int));
        }
    }

    // Combines the groups around the stone about to be placed at `vertex`.
    // If no groups are available for joining, the new stone is placed as
    // its own new group.
    #[verifier::rlimit(50)]
    fn join_groups_around(&mut self, vertex: Vertex, stone: Stone)
        requires
            old(self).settled(),
            on_board(old(self)@.size, vertex.0 as int),
            old(self)@.board[vertex.0 as int] == Stone::Empty,
            stone.is_color(),
        ensures
            final(self).coherent(old(self)@.board.update(vertex.0 as int, stone), final(self)@.head, vertex.0 as int, 4, 0),
            final(self)@ == old(self)@.joined(stone, vertex.0 as int),
            forall|w: int|
                0 <= w < 441 ==> #[trigger] final(self)@.head[w] == (if w == vertex.0 || old(self)@.friend_head_upto(
                    stone,
                    vertex.0 as int,
                    old(self)@.head[w],
                    4,
                ) {
                    final(self)@.head[vertex.0 as int]
                } else {
                    old(self)@.head[w]
                }),
            final(self)@.head[vertex.0 as int] == vertex.0 || old(self)@.friend_head_upto(stone, vertex.0 as int, final(self)@.head[vertex.0 as int], 4),
            final(self)@.board == old(self)@.board,
            final(self)@.empties == old(self)@.empties,
            final(self)@.size == old(self)@.size,
            final(self)@.ko == old(self)@.ko,
    {
        let ghost pos = self@;
        let ghost v = vertex.0 as int;
        proof {
            lemma_on_board_interior(pos.size, v);
        }
        let (largest_group_head, largest_group_size) = self.largest_neighbour(vertex, stone);
        if largest_group_size == 0 {
            let ghost next0 = indices(self.string_next_v@);
            let ghost views0 = string_views(self.strings@);
            self.init_new_string(vertex, stone, 1);
            proof {
                self.chains = Ghost(pos.chains.update(v, seq![v]));
                let views1 = string_views(self.strings@);
                let next1 = indices(self.string_next_v@);
                assert(pos.head[v] == v);
                assert(self@.head =~= pos.head.update(v, v));
                assert(self@ == pos.founded(v));
                assert(views1 =~= views0.update(v, views1[v])) by {
                    assert forall|x: int| 0 <= x < 441 implies views1[x] == views0.update(v, views1[v])[x] by {
                        assert(views1[x] == self.strings@[x]@);
                        assert(views0[x] == old(self).strings@[x]@);
                    }
                }
                assert(views1[v] == self.strings@[v]@);
                assert(next1 =~= next0.update(v, v));
                lemma_founded_structure(pos, next0, views0, v, stone, views1[v]);
                assert(Position { board: pos.board.update(v, stone), ..self@ } == Position { board: pos.board.update(v, stone), ..pos.founded(v) });
                lemma_empty_cell_summary(pos, v, 0);
                lemma_empty_cell_summary(pos, v, 1);
                lemma_empty_cell_summary(pos, v, 2);
                assert(self@.head =~= pos.head);
                assert forall|x: int| 0 <= x < 441 && self@.head[x] == x implies {
                    &&& (#[trigger] views1[x]).count == base(self.size as int, x, 0) + total(self.board@, self@.head, x, 0) + 0 * pending(self@.head, x, v, 0, 4)
                    &&& views1[x].sum == base(self.size as int, x, 1) + total(self.board@, self@.head, x, 1) + 0 * pending(self@.head, x, v, 1, 4)
                    &&& views1[x].sum_squared == base(self.size as int, x, 2) + total(self.board@, self@.head, x, 2) + 0 * pending(self@.head, x, v, 2, 4)
                } by {
                    if x != v {
                        assert(views1[x] == views0[x]);
                        assert(views0[x].count == base(pos.size, x, 0) + total(pos.board, pos.head, x, 0));
                    } else {
                        lemma_total_bounds(pos.board, pos.head, v);
                    }
                }
                assert(listing_ok(self@, self.empty_v_index@, self.num_black_stones as int));
                assert forall|w: int| 0 <= w < 441 implies !pos.friend_head_upto(stone, v, pos.head[w], 4) by {
                    assert(cell(pos.board, nbr(v, 0)) != stone);
                    assert(cell(pos.board, nbr(v, 1)) != stone);
                    assert(cell(pos.board, nbr(v, 2)) != stone);
                    assert(cell(pos.board, nbr(v, 3)) != stone);
                }
            }
            return;
        }
        let ghost ss = largest_group_head.0 as int;
        let ns = neighbours(vertex);
        let mut k: usize = 0;
        while k < 4
            invariant
                0 <= k <= 4,
                self.settled(),
                pos == old(self)@,
                v == vertex.0,
                22 <= v <= 418,
                ss == largest_group_head.0,
                in_virtual(ss),
                stone.is_color(),
                forall|j: int| 0 <= j < 4 ==> (#[trigger] ns[j]).0 == nbr(v, j),
                self@ == pos.merged_upto(stone, v, ss, k as int),
                self@.board == pos.board,
                self@.empties == pos.empties,
                self@.size == pos.size,
                self@.ko == pos.ko,
                self@.head[ss] == ss,
                self@.board[ss] == stone,
                pos.head.len() == 441,
                forall|w: int|
                    0 <= w < 441 ==> #[trigger] self@.head[w] == (if pos.head[w] == ss || pos.friend_head_upto(stone, v, pos.head[w], k as int) {
                        ss
                    } else {
                        pos.head[w]
                    }),
            decreases 4 - k,
        {
            let n = ns[k];
            let ghost before = self@;
            assert(n.0 == nbr(v, k as int));
            if self.board[n.as_index()] == stone {
                let h = self.head_at(n);
                if h != largest_group_head {
                    self.merge_into(n, largest_group_head);
                }
            }
            proof {
                let nn = n.0 as int;
                assert(before.head[nn] == (if pos.head[nn] == ss || pos.friend_head_upto(stone, v, pos.head[nn], k as int) { ss } else { pos.head[nn] }));
                assert forall|w: int| 0 <= w < 441 implies #[trigger] self@.head[w] == (if pos.head[w] == ss || pos.friend_head_upto(
                    stone,
                    v,
                    pos.head[w],
                    k + 1,
                ) {
                    ss
                } else {
                    pos.head[w]
                }) by {
                    assert(before.head[w] == (if pos.head[w] == ss || pos.friend_head_upto(stone, v, pos.head[w], k as int) { ss } else { pos.head[w] }));
                }
            }
            k += 1;
        }
        let ghost mid = self@;
        let ghost next0 = indices(self.string_next_v@);
        let ghost views0 = string_views(self.strings@);
        let idx = vertex.as_index();
        let s = largest_group_head.as_index();
        proof {
            assert(views0[ss] == self.strings@[ss]@);
            lemma_attached_structure(mid, next0, views0, v, ss, stone, (StringView { num_stones: views0[ss].num_stones + 1, ..views0[ss] }));
            lemma_total_bounds(mid.board, mid.head, ss);
            assert(on_board(mid.size, ss));
            assert(mid.has_stone(ss));
        }
        self.string_next_v[idx] = self.string_next_v[s];
        self.string_next_v[s] = vertex;
        let size = self.strings[s].stones();
        self.strings[s].set_stones(stone, size + 1);
        self.string_head[idx] = largest_group_head;
        self.add_neighbour_liberties(vertex, largest_group_head);
        proof {
            let new = mid.attached(v, ss);
            self.chains = Ghost(new.chains);
            let views1 = string_views(self.strings@);
            let next1 = indices(self.string_next_v@);
            assert(self@.head =~= new.head);
            assert(self@ == new);
            assert(next1 =~= next0.update(v, next0[ss]).update(ss, v));
            assert(views1[ss] == self.strings@[ss]@);
            let grown = StringView { num_stones: views0[ss].num_stones + 1, ..views0[ss] };
            let counted = views1[ss];
            assert forall|x: int| 0 <= x < 441 && x != ss implies views1[x] == views0[x] by {
                assert(views1[x] == self.strings@[x]@);
            }
            // the structure only reads the color and the number of stones
            assert(structure_ok(Position { board: pos.board.update(v, stone), ..new }, next1, views0.update(ss, grown)));
            assert(sizes_ok(Position { board: pos.board.update(v, stone), ..new }, views1)) by {
                assert forall|h: int| 0 <= h < 441 implies (#[trigger] views1[h]).num_stones == views0.update(ss, grown)[h].num_stones && views1[h].color
                    == views0.update(ss, grown)[h].color by {}
            }
            assert(mid.head[v] == v);
            assert forall|x: int| 0 <= x < 441 && new.head[x] == x implies {
                &&& (#[trigger] views1[x]).count == base(self.size as int, x, 0) + total(self.board@, new.head, x, 0) + 0 * pending(new.head, x, v, 0, 4)
                &&& views1[x].sum == base(self.size as int, x, 1) + total(self.board@, new.head, x, 1) + 0 * pending(new.head, x, v, 1, 4)
                &&& views1[x].sum_squared == base(self.size as int, x, 2) + total(self.board@, new.head, x, 2) + 0 * pending(new.head, x, v, 2, 4)
            } by {
                lemma_lsum_move(mid.board, mid.head, v, ss, x, 0, num_incidences());
                lemma_lsum_move(mid.board, mid.head, v, ss, x, 1, num_incidences());
                lemma_lsum_move(mid.board, mid.head, v, ss, x, 2, num_incidences());
                lemma_cell_liberties_full(mid.board, v, 0);
                lemma_cell_liberties_full(mid.board, v, 1);
                lemma_cell_liberties_full(mid.board, v, 2);
                assert(x != v);
                assert(mid.head[x] == x);
                assert(views0[x].count == base(mid.size, x, 0) + total(mid.board, mid.head, x, 0));
            }
            assert(listing_ok(self@, self.empty_v_index@, self.num_black_stones as int));
            assert(pos.friend_head_upto(stone, v, ss, 4));
            assert(pos.head[v] == v);
            assert forall|w: int| 0 <= w < 441 implies #[trigger] self@.head[w] == (if w == v || pos.friend_head_upto(stone, v, pos.head[w], 4) {
                ss
            } else {
                pos.head[w]
            }) by {
                assert(mid.head[w] == (if pos.head[w] == ss || pos.friend_head_upto(stone, v, pos.head[w], 4) { ss } else { pos.head[w] }));
            }
        }
    }

    // Takes the liberty `vertex`, which has just been filled, from the
    // strings of its four neighbours.
    fn remove_liberty_from_neighbouring_groups(&mut self, vertex: Vertex, Ghost(stones): Ghost<Seq<Stone>>)
        requires
            old(self).coherent(stones, old(self)@.head, vertex.0 as int, 0, 1),
            22 <= vertex.0 <= 418,
        ensures
            final(self).coherent(stones, old(self)@.head, vertex.0 as int, 4, 1),
            final(self).same_but_strings(old(self)),
    {
        let ns = neighbours(vertex);
        let ghost v = vertex.0 as int;
        let ghost heads = self@.head;
        let mut k: usize = 0;
        while k < 4
            invariant
                0 <= k <= 4,
                v == vertex.0,
                22 <= v <= 418,
                heads == old(self)@.head,
                forall|j: int| 0 <= j < 4 ==> (#[trigger] ns[j]).0 == nbr(v, j),
                self.coherent(stones, heads, v, k as int, 1),
                self.same_but_strings(old(self)),
            decreases 4 - k,
        {
            let n = ns[k];
            let ghost views0 = string_views(self.strings@);
            let ghost gpos = Position { board: stones, ..self@ };
            proof {
                assert(n.0 == nbr(v, k as int));
                lemma_head_of_head(gpos, n.0 as int);
            }
            let h = self.string_head[n.as_index()];
            proof {
                let hh = h.0 as int;
                assert(heads[n.0 as int] == hh);
                assert(heads[hh] == hh);
                lemma_base_bounds(self.size as int, hh, 0);
                lemma_base_bounds(self.size as int, hh, 1);
                lemma_base_bounds(self.size as int, hh, 2);
                lemma_total_bounds(self.board@, heads, hh);
                lemma_weight_bounds(v, 0);
                lemma_weight_bounds(v, 1);
                lemma_weight_bounds(v, 2);
                assert(views0[hh] == self.strings@[hh]@);
                assert(pending(heads, hh, v, 0, k as int) >= weight(v, 0));
                assert(pending(heads, hh, v, 1, k as int) >= weight(v, 1));
                assert(pending(heads, hh, v, 2, k as int) >= weight(v, 2));
            }
            self.strings[h.as_index()].remove_liberty(vertex);
            proof {
                let hh = h.0 as int;
                let views1 = string_views(self.strings@);
                assert forall|x: int| 0 <= x < 441 implies (#[trigger] views1[x]).num_stones == views0[x].num_stones && views1[x].color == views0[x].color by {
                    assert(views1[x] == self.strings@[x]@);
                }
                assert forall|x: int| 0 <= x < 441 && heads[x] == x implies {
                    &&& (#[trigger] views1[x]).count == base(self.size as int, x, 0) + total(self.board@, heads, x, 0) + 1 * pending(heads, x, v, 0, k + 1)
                    &&& views1[x].sum == base(self.size as int, x, 1) + total(self.board@, heads, x, 1) + 1 * pending(heads, x, v, 1, k + 1)
                    &&& views1[x].sum_squared == base(self.size as int, x, 2) + total(self.board@, heads, x, 2) + 1 * pending(heads, x, v, 2, k + 1)
                } by {
                    assert(views1[x] == self.strings@[x]@);
                    if x != hh {
                        assert(views1[x] == views0[x]);
                    }
                }
                assert(sizes_ok(gpos, views1));
            }
            k += 1;
        }
    }

    // Lets the stone join the strings around it, places it and takes it
    // as a liberty from its neighbours.
    #[verifier::rlimit(50)]
    fn put_stone(&mut self, stone: Stone, vertex: Vertex)
        requires
            old(self).wf(),
            stone.is_color(),
            on_board(old(self)@.size, vertex.0 as int),
            old(self)@.board[vertex.0 as int] == Stone::Empty,
            old(self)@.can_play(stone, vertex.0 as int),
        ensures
            final(self).settled(),
            final(self)@ == old(self)@.joined(stone, vertex.0 as int).placed(stone, vertex.0 as int),
            final(self)@.board[vertex.0 as int] == stone,
            final(self)@.ko == old(self)@.ko,
            final(self)@.valid_maximal(),
            hopeful(final(self)@, stone, vertex.0 as int, 0),
            final(self)@.board == old(self)@.board.update(vertex.0 as int, stone),
            final(self)@.size == old(self)@.size,
            forall|w: int|
                0 <= w < 441 ==> #[trigger] final(self)@.head[w] == (if w == vertex.0 || old(self)@.friend_head_upto(
                    stone,
                    vertex.0 as int,
                    old(self)@.head[w],
                    4,
                ) {
                    final(self)@.head[vertex.0 as int]
                } else {
                    old(self)@.head[w]
                }),
            final(self)@.head[vertex.0 as int] == vertex.0 || old(self)@.friend_head_upto(stone, vertex.0 as int, final(self)@.head[vertex.0 as int], 4),
    {
        let ghost pos = self@;
        let ghost v = vertex.0 as int;
        proof {
            lemma_on_board_interior(pos.size, v);
        }
        self.join_groups_around(vertex, stone);
        let ghost joined = self@;
        let ghost board1 = pos.board.update(v, stone);
        let ghost views = string_views(self.strings@);
        let ghost next = indices(self.string_next_v@);
        self.set_stone(stone, vertex);
        proof {
            assert(self.board@ == board1);
            assert(self@ == joined.placed(stone, v));
            assert(self@.head == joined.head);
            lemma_structure_frame(Position { board: board1, ..joined }, Position { board: board1, ..self@ }, next, views);
            assert forall|x: int| 0 <= x < 441 && joined.head[x] == x implies {
                &&& (#[trigger] views[x]).count == base(self.size as int, x, 0) + total(board1, joined.head, x, 0) + 1 * pending(joined.head, x, v, 0, 0)
                &&& views[x].sum == base(self.size as int, x, 1) + total(board1, joined.head, x, 1) + 1 * pending(joined.head, x, v, 1, 0)
                &&& views[x].sum_squared == base(self.size as int, x, 2) + total(board1, joined.head, x, 2) + 1 * pending(joined.head, x, v, 2, 0)
            } by {
                lemma_lsum_cell(pos.board, board1, joined.head, x, 0, v, num_incidences());
                lemma_lsum_cell(pos.board, board1, joined.head, x, 1, v, num_incidences());
                lemma_lsum_cell(pos.board, board1, joined.head, x, 2, v, num_incidences());
                lemma_adjacent_is_pending(joined.head, x, v, 0);
                lemma_adjacent_is_pending(joined.head, x, v, 1);
                lemma_adjacent_is_pending(joined.head, x, v, 2);
                assert(views[x].count == base(self.size as int, x, 0) + total(pos.board, joined.head, x, 0) + 0 * pending(joined.head, x, v, 0, 4));
            }
            assert(self.coherent(board1, self@.head, v, 0, 1));
        }
        self.remove_liberty_from_neighbouring_groups(vertex, Ghost(board1));
        proof {
            assert forall|x: int| 0 <= x < 441 implies pending(self@.head, x, v, 0, 4) == 0 && pending(self@.head, x, v, 1, 4) == 0 && pending(self@.head, x, v, 2, 4)
                == 0 by {}
            assert(self@ == joined.placed(stone, v));
            assert(self.settled());
            lemma_placed_hopeful(pos, stone, v, joined.head);
            lemma_hopeful_frame(Position { board: pos.board.update(v, stone), head: joined.head, ..pos }, self@, stone, v, 0);
            assert(pos.valid_maximal()) by {
                reveal(GoGame::components_ok);
            }
            lemma_placed_maximal(pos, stone, v, joined.head);
            lemma_maximal_frame(Position { board: pos.board.update(v, stone), head: joined.head, ..pos }, self@);
        }
    }

    // Counts the cell `cur`, which has just become empty, as a liberty of
    // the strings of its neighbours, but for the stones of the string with
    // head `dying` that are still on the board.
    #[verifier::rlimit(50)]
    fn grant_liberty(&mut self, cur: Vertex, dying: Vertex, Ghost(heads): Ghost<Seq<int>>)
        requires
            old(self).sized(),
            22 <= cur.0 <= 418,
            heads.len() == 441,
            lagged_ok(old(self).size as int, old(self).board@, heads, string_views(old(self).strings@), cur.0 as int, 0, -1),
            forall|k: int|
                0 <= k < 4 ==> {
                    let u = #[trigger] nbr(cur.0 as int, k);
                    let hu = old(self).string_head@[u].0 as int;
                    &&& 0 <= hu < 441
                    &&& if hu != dying.0 || old(self).board@[u] == Stone::Empty {
                        heads[u] == hu && heads[hu] == hu
                    } else {
                        heads[u] == -1
                    }
                },
        ensures
            final(self).sized(),
            final(self).same_but_strings(old(self)),
            lagged_ok(final(self).size as int, final(self).board@, heads, string_views(final(self).strings@), cur.0 as int, 4, -1),
            forall|x: int| 0 <= x < 441 ==> (#[trigger] final(self).strings@[x])@.num_stones == old(self).strings@[x]@.num_stones && final(self).strings@[x]@.color
                == old(self).strings@[x]@.color,
    {
        let ns = neighbours(cur);
        let ghost v = cur.0 as int;
        let mut k: usize = 0;
        while k < 4
            invariant
                0 <= k <= 4,
                v == cur.0,
                22 <= v <= 418,
                heads.len() == 441,
                forall|j: int| 0 <= j < 4 ==> (#[trigger] ns[j]).0 == nbr(v, j),
                self.sized(),
                self.same_but_strings(old(self)),
                lagged_ok(self.size as int, self.board@, heads, string_views(self.strings@), v, k as int, -1),
                forall|j: int|
                    0 <= j < 4 ==> {
                        let u = #[trigger] nbr(v, j);
                        let hu = self.string_head@[u].0 as int;
                        &&& 0 <= hu < 441
                        &&& if hu != dying.0 || self.board@[u] == Stone::Empty {
                            heads[u] == hu && heads[hu] == hu
                        } else {
                            heads[u] == -1
                        }
                    },
                forall|x: int| 0 <= x < 441 ==> (#[trigger] self.strings@[x])@.num_stones == old(self).strings@[x]@.num_stones && self.strings@[x]@.color
                    == old(self).strings@[x]@.color,
            decreases 4 - k,
        {
            let n = ns[k];
            let ghost views0 = string_views(self.strings@);
            let ghost u = nbr(v, k as int);
            assert(n.0 == u);
            let neighbour_string_head = self.string_head[n.as_index()];
            let ghost hu = neighbour_string_head.0 as int;
            if neighbour_string_head != dying || self.board[n.as_index()] == Stone::Empty {
                proof {
                    assert(heads[u] == hu && heads[hu] == hu);
                    lemma_base_bounds(self.size as int, hu, 0);
                    lemma_base_bounds(self.size as int, hu, 1);
                    lemma_base_bounds(self.size as int, hu, 2);
                    lemma_total_bounds(self.board@, heads, hu);
                    lemma_pending_bounds(heads, hu, v, 0, k as int);
                    lemma_pending_bounds(heads, hu, v, 1, k as int);
                    lemma_pending_bounds(heads, hu, v, 2, k as int);
                    lemma_weight_bounds(v, 0);
                    lemma_weight_bounds(v, 1);
                    lemma_weight_bounds(v, 2);
                    assert(views0[hu] == self.strings@[hu]@);
                }
                self.strings[neighbour_string_head.as_index()].add_liberty(cur);
            }
            proof {
                let views1 = string_views(self.strings@);
                assert forall|x: int| 0 <= x < 441 && heads[x] == x implies {
                    &&& (#[trigger] views1[x]).count == base(self.size as int, x, 0) + total(self.board@, heads, x, 0) + (-1) * pending(heads, x, v, 0, k + 1)
                    &&& views1[x].sum == base(self.size as int, x, 1) + total(self.board@, heads, x, 1) + (-1) * pending(heads, x, v, 1, k + 1)
                    &&& views1[x].sum_squared == base(self.size as int, x, 2) + total(self.board@, heads, x, 2) + (-1) * pending(heads, x, v, 2, k + 1)
                } by {
                    assert(views1[x] == self.strings@[x]@);
                    assert(views0[x].count == base(self.size as int, x, 0) + total(self.board@, heads, x, 0) + (-1) * pending(heads, x, v, 0, k as int));
                    if heads[u] != x {
                        assert(views1[x] == views0[x]);
                    }
                }
            }
            k += 1;
        }
    }

    /// The stone `w` of the string with head `h` has left the board when
    /// the first `i` stones of the chain from `start` on have.
    closed spec fn gone(pos: Position, h: int, start: int, i: int, w: int) -> bool {
        pos.in_string(w, h) && chain_rank(pos.chains[h], start, w) < i
    }

    /// The heads by which the counters go while a string leaves the board:
    /// a stone that has left is its own head, and one that still waits has
    /// none.
    closed spec fn heads_while_removing(pos: Position, h: int, start: int, i: int) -> Seq<int> {
        Seq::new(441, |w: int| if Self::gone(pos, h, start, i, w) { w } else if pos.in_string(w, h) { -1 } else { pos.head[w] })
    }

    // Takes the string of the stone `vertex` off the board and gives the
    // liberties back to the strings around it.
    #[verifier::rlimit(60)]
    fn remove_group(&mut self, vertex: Vertex)
        requires
            old(self).settled(),
            in_virtual(vertex.0 as int),
            old(self)@.has_stone(vertex.0 as int),
        ensures
            final(self).settled(),
            final(self)@ == old(self)@.removed(vertex.0 as int),
    {
        let ghost pos = self@;
        let ghost next0 = indices(self.string_next_v@);
        let ghost views0 = string_views(self.strings@);
        let ghost nn = vertex.0 as int;
        let ghost h = pos.head[nn];
        let ghost c = pos.chains[h];
        let ghost start = c.index_of(nn);
        let ghost r = rotate(c, start);
        let ghost len = c.len() as int;
        proof {
            lemma_head_of_head(pos, nn);
            assert(c.contains(nn));
            assert(0 <= start < len && c[start] == nn);
            lemma_rotate_distinct(c, start);
            assert(chain_linked(c, next0));
            lemma_rotate_links(c, next0, start);
            lemma_chain_length(c);
            assert forall|t: int| 0 <= t < len implies 0 <= #[trigger] r[t] < 441 && pos.in_string(r[t], h) && chain_rank(c, start, r[t]) == t by {
                lemma_rotate_at(c, start, t);
                lemma_rank_of_entry(c, start, t);
            }
            assert(Self::heads_while_removing(pos, h, start, 0) =~= Seq::new(441, |w: int| if pos.in_string(w, h) { -1 } else { pos.head[w] }));
            assert forall|x: int| 0 <= x < 441 && Self::heads_while_removing(pos, h, start, 0)[x] == x implies {
                &&& (#[trigger] views0[x]).count == base(pos.size, x, 0) + total(pos.board, Self::heads_while_removing(pos, h, start, 0), x, 0)
                &&& views0[x].sum == base(pos.size, x, 1) + total(pos.board, Self::heads_while_removing(pos, h, start, 0), x, 1)
                &&& views0[x].sum_squared == base(pos.size, x, 2) + total(pos.board, Self::heads_while_removing(pos, h, start, 0), x, 2)
            } by {
                let eh = Self::heads_while_removing(pos, h, start, 0);
                assert(pos.head[x] == x && x != h);
                if h != -1 {
                    lemma_lsum_relabel(pos.board, pos.head, eh, h, -1, x, 0, num_incidences());
                    lemma_lsum_relabel(pos.board, pos.head, eh, h, -1, x, 1, num_incidences());
                    lemma_lsum_relabel(pos.board, pos.head, eh, h, -1, x, 2, num_incidences());
                }
                assert(views0[x].count == base(pos.size, x, 0) + total(pos.board, pos.head, x, 0));
            }
            assert(self@.empties =~= pos.empties + r.subrange(0, 0));
        }
        let dying = self.string_head[vertex.as_index()];
        let mut cur = vertex;
        let ghost i: int = 0;
        loop
            invariant_except_break
                0 <= i < len,
                cur.0 == r[i],
            invariant
                self.sized(),
                listing_ok(self@, self.empty_v_index@, self.num_black_stones as int),
                self.size == old(self).size,
                self.ko_vertex == old(self).ko_vertex,
                self.to_play == old(self).to_play,
                self.history == old(self).history,
                self.chains == old(self).chains,
                pos == old(self)@,
                pos.valid_board(),
                pos.valid_strings(),
                next0 == indices(old(self).string_next_v@),
                views0 == string_views(old(self).strings@),
                in_virtual(nn),
                nn == vertex.0,
                h == pos.head[nn],
                h == dying.0,
                0 <= h < 441,
                pos.has_stone(h),
                pos.head[h] == h,
                c == pos.chains[h],
                r == rotate(c, start),
                len == c.len(),
                1 <= len <= 441,
                0 <= start < len,
                r.len() == len,
                r[0] == nn,
                r.no_duplicates(),
                chain_linked(r, next0),
                forall|t: int| 0 <= t < len ==> 0 <= #[trigger] r[t] < 441 && pos.in_string(r[t], h) && chain_rank(c, start, r[t]) == t,
                0 <= i <= len,
                forall|w: int| 0 <= w < 441 ==> #[trigger] self.board@[w] == (if Self::gone(pos, h, start, i, w) { Stone::Empty } else { pos.board[w] }),
                forall|w: int| 0 <= w < 441 ==> (#[trigger] self.string_head@[w]).0 == (if Self::gone(pos, h, start, i, w) { w } else { pos.head[w] }),
                forall|w: int| 0 <= w < 441 && !Self::gone(pos, h, start, i, w) ==> (#[trigger] self.string_next_v@[w]).0 == next0[w],
                self@.empties == pos.empties + r.subrange(0, i),
                lagged_ok(self.size as int, self.board@, Self::heads_while_removing(pos, h, start, i), string_views(self.strings@), 0, 4, 0),
                forall|w: int| 0 <= w < 441 && !pos.in_string(w, h) ==> (#[trigger] self.strings@[w])@.num_stones == views0[w].num_stones && self.strings@[w]@.color
                    == views0[w].color,
                forall|w: int| 0 <= w < 441 && Self::gone(pos, h, start, i, w) ==> (#[trigger] self.strings@[w])@.num_stones == 0 && self.strings@[w]@.color
                    == Stone::Empty,
            ensures
                i == len,
            decreases len - i,
        {
            let ghost i0 = i;
            let ghost cc = cur.0 as int;
            let ghost board0 = self.board@;
            let ghost eh0 = Self::heads_while_removing(pos, h, start, i0);
            let ghost eh1 = Self::heads_while_removing(pos, h, start, i0 + 1);
            let ghost views_a = string_views(self.strings@);
            let ghost empties_a = self@.empties;
            proof {
                assert(!Self::gone(pos, h, start, i0, cc));
                assert(pos.board[cc].is_color());
                assert(on_board(pos.size, cc));
                lemma_on_board_interior(pos.size, cc);
            }
            self.set_stone(Stone::Empty, cur);
            proof {
                assert(link_ok(r, next0, i0));
                assert(next0[r[i0]] == self.string_next_v@[r[i0]].0);
            }
            let next = self.string_next_v[cur.as_index()];
            self.init_new_string(cur, Stone::Empty, 0);
            proof {
                i = i + 1;
                let board1 = self.board@;
                let views_b = string_views(self.strings@);
                assert(board1 == board0.update(cc, Stone::Empty));
                assert(eh1 =~= eh0.update(cc, cc)) by {
                    assert forall|w: int| 0 <= w < 441 implies eh1[w] == eh0.update(cc, cc)[w] by {
                        if pos.in_string(w, h) {
                            assert(c.contains(w));
                            lemma_entry_of_rank(c, start, w);
                            if chain_rank(c, start, w) == i0 {
                                assert(r[i0] == w);
                            }
                        }
                    }
                }
                assert(eh0[cc] == -1);
                // no cell goes by the head `cc` before this step
                assert forall|e: int| 0 <= e < num_incidences() implies !active(board1, eh0, cc, e) by {
                    let w = e / 4;
                    if eh0[w] == cc {
                        if Self::gone(pos, h, start, i0, w) {
                        } else if pos.in_string(w, h) {
                        } else {
                            assert(pos.head[w] == cc);
                            lemma_head_of_head(pos, w);
                            assert(pos.head[cc] == cc);
                            assert(cc == h);
                            assert(!pos.has_stone(w));
                            assert(pos.head[w] == w);
                        }
                    }
                }
                assert forall|x: int| 0 <= x < 441 && eh1[x] == x implies {
                    &&& (#[trigger] views_b[x]).count == base(self.size as int, x, 0) + total(board1, eh1, x, 0) + (-1) * pending(eh1, x, cc, 0, 0)
                    &&& views_b[x].sum == base(self.size as int, x, 1) + total(board1, eh1, x, 1) + (-1) * pending(eh1, x, cc, 1, 0)
                    &&& views_b[x].sum_squared == base(self.size as int, x, 2) + total(board1, eh1, x, 2) + (-1) * pending(eh1, x, cc, 2, 0)
                } by {
                    assert(views_b[x] == self.strings@[x]@);
                    lemma_lsum_move(board1, eh0, cc, cc, x, 0, num_incidences());
                    lemma_lsum_move(board1, eh0, cc, cc, x, 1, num_incidences());
                    lemma_lsum_move(board1, eh0, cc, cc, x, 2, num_incidences());
                    if x == cc {
                        lemma_lsum_none(board1, eh0, cc, 0, num_incidences());
                        lemma_lsum_none(board1, eh0, cc, 1, num_incidences());
                        lemma_lsum_none(board1, eh0, cc, 2, num_incidences());
                        lemma_cell_liberties_full(board1, cc, 0);
                        lemma_cell_liberties_full(board1, cc, 1);
                        lemma_cell_liberties_full(board1, cc, 2);
                        assert(pending(eh1, cc, cc, 0, 0) == 0 && pending(eh1, cc, cc, 1, 0) == 0 && pending(eh1, cc, cc, 2, 0) == 0) by {
                            assert forall|k: int| 0 <= k < 4 implies eh1[#[trigger] nbr(cc, k)] != cc by {
                                let u = nbr(cc, k);
                                if Self::gone(pos, h, start, i0 + 1, u) {
                                } else if pos.in_string(u, h) {
                                } else {
                                    if pos.head[u] == cc {
                                        lemma_head_of_head(pos, u);
                                        assert(pos.head[cc] == cc);
                                        assert(cc == h);
                                        assert(!pos.has_stone(u));
                                    }
                                }
                            }
                            assert(eh1[nbr(cc, 0)] != cc && eh1[nbr(cc, 1)] != cc && eh1[nbr(cc, 2)] != cc && eh1[nbr(cc, 3)] != cc);
                        }
                    } else {
                        assert(eh0[x] == x);
                        assert(views_b[x] == views_a[x]);
                        lemma_lsum_cell(board1, board0, eh0, x, 0, cc, num_incidences());
                        lemma_lsum_cell(board1, board0, eh0, x, 1, cc, num_incidences());
                        lemma_lsum_cell(board1, board0, eh0, x, 2, cc, num_incidences());
                        lemma_adjacent_is_pending(eh0, x, cc, 0);
                        lemma_adjacent_is_pending(eh0, x, cc, 1);
                        lemma_adjacent_is_pending(eh0, x, cc, 2);
                        assert(pending(eh1, x, cc, 0, 0) == pending(eh0, x, cc, 0, 0));
                        assert(pending(eh1, x, cc, 1, 0) == pending(eh0, x, cc, 1, 0));
                        assert(pending(eh1, x, cc, 2, 0) == pending(eh0, x, cc, 2, 0));
                        assert(views_a[x].count == base(self.size as int, x, 0) + total(board0, eh0, x, 0));
                    }
                }
                assert forall|k: int| 0 <= k < 4 implies {
                    let u = #[trigger] nbr(cc, k);
                    let hu = self.string_head@[u].0 as int;
                    &&& 0 <= hu < 441
                    &&& if hu != dying.0 || self.board@[u] == Stone::Empty {
                        eh1[u] == hu && eh1[hu] == hu
                    } else {
                        eh1[u] == -1
                    }
                } by {
                    let u = nbr(cc, k);
                    lemma_head_of_head(pos, u);
                    if pos.in_string(u, h) {
                        assert(c.contains(u));
                        lemma_entry_of_rank(c, start, u);
                        if chain_rank(c, start, u) == i0 {
                            assert(r[i0] == u);
                        }
                    } else {
                        let hu = pos.head[u];
                        assert(hu != h) by {
                            if hu == h {
                                assert(!pos.has_stone(u));
                                assert(pos.head[u] == u);
                            }
                        }
                        assert(!pos.in_string(hu, h));
                    }
                }
            }
            self.grant_liberty(cur, dying, Ghost(eh1));
            proof {
                assert(self@.empties =~= pos.empties + r.subrange(0, i)) by {
                    assert(r.subrange(0, i) =~= r.subrange(0, i0).push(cc));
                }
                lemma_adjacent_is_pending(eh1, 0, cc, 0);
                assert forall|x: int| 0 <= x < 441 implies pending(eh1, x, cc, 0, 4) == 0 && pending(eh1, x, cc, 1, 4) == 0 && pending(eh1, x, cc, 2, 4) == 0 by {}
                assert forall|w: int| 0 <= w < 441 implies Self::gone(pos, h, start, i, w) == (w == cc || Self::gone(pos, h, start, i0, w)) by {
                    if pos.in_string(w, h) {
                        assert(c.contains(w));
                        lemma_entry_of_rank(c, start, w);
                        if chain_rank(c, start, w) == i0 {
                            assert(r[i0] == w);
                        }
                    }
                }
            }
            cur = next;
            if cur == vertex {
                proof {
                    if i < len {
                        assert(r[i] != r[0]);
                    }
                }
                break;
            }
            proof {
                if i == len {
                    assert(wrap_next(i0, len) == 0);
                }
            }
        }
        proof {
            let new = pos.removed(nn);
            self.chains = Ghost(new.chains);
            let views1 = string_views(self.strings@);
            let next1 = indices(self.string_next_v@);
            assert forall|w: int| 0 <= w < 441 implies Self::gone(pos, h, start, len, w) == pos.in_string(w, h) by {
                if pos.in_string(w, h) {
                    assert(c.contains(w));
                    lemma_entry_of_rank(c, start, w);
                }
            }
            assert(self@.board =~= new.board);
            assert(self@.head =~= new.head);
            assert(r.subrange(0, len) =~= r);
            assert(pos.chain_from(nn) == r);
            assert(self@ == new);
            assert(Self::heads_while_removing(pos, h, start, len) =~= new.head);
            assert forall|w: int| 0 <= w < 441 && !pos.in_string(w, pos.head[nn]) implies #[trigger] next1[w] == next0[w] by {
                assert(self.string_next_v@[w].0 == next0[w]);
            }
            assert forall|w: int| 0 <= w < 441 && !pos.in_string(w, pos.head[nn]) implies (#[trigger] views1[w]).num_stones == views0[w].num_stones && views1[w].color
                == views0[w].color by {
                assert(views1[w] == self.strings@[w]@);
            }
            assert forall|w: int| 0 <= w < 441 && pos.in_string(w, pos.head[nn]) implies (#[trigger] views1[w]).num_stones == 0 && views1[w].color == Stone::Empty by {
                assert(views1[w] == self.strings@[w]@);
            }
            lemma_removed_structure(pos, next0, views0, nn, next1, views1);
            assert(Position { board: self.board@, ..self@ } == new);
        }
    }

    // Takes the opponent strings next to the stone just placed at `vertex`
    // off the board, if they have no liberty left.
    #[verifier::rlimit(50)]
    fn capture_dead_groups(&mut self, vertex: Vertex, stone: Stone)
        requires
            old(self).settled(),
            22 <= vertex.0 <= 418,
            stone.is_color(),
            old(self)@.board[vertex.0 as int] == stone,
            old(self)@.valid_maximal(),
            hopeful(old(self)@, stone, vertex.0 as int, 0),
        ensures
            final(self).settled(),
            final(self)@ == old(self)@.captured_upto(stone, vertex.0 as int, 4),
            final(self)@.valid_liberties(),
            final(self)@.valid_maximal(),
            final(self)@.ko == old(self)@.ko,
            capture_progress(old(self)@, final(self)@, stone, vertex.0 as int, 4),
    {
        let ns = neighbours(vertex);
        let ghost v = vertex.0 as int;
        let ghost pos = self@;
        proof {
            lemma_capture_begin(pos, stone, v);
        }
        let mut k: usize = 0;
        while k < 4
            invariant
                0 <= k <= 4,
                v == vertex.0,
                22 <= v <= 418,
                stone.is_color(),
                pos == old(self)@,
                forall|j: int| 0 <= j < 4 ==> (#[trigger] ns[j]).0 == nbr(v, j),
                self.settled(),
                self@ == pos.captured_upto(stone, v, k as int),
                self@.ko == pos.ko,
                self@.board[v] == stone,
                self@.valid_maximal(),
                hopeful(self@, stone, v, k as int),
                pos.valid_board(),
                pos.valid_strings(),
                capture_progress(pos, self@, stone, v, k as int),
            decreases 4 - k,
        {
            let n = ns[k];
            assert(n.0 == nbr(v, k as int));
            proof {
                lemma_capture_step(self@, stone, v, k as int);
                lemma_capture_maximal(self@, stone, v, k as int);
                lemma_capture_progress(pos, self@, stone, v, k as int);
            }
            if self.board[n.as_index()] == stone.opponent() && self.dead(n) {
                self.remove_group(n);
            }
            k += 1;
        }
        proof {
            lemma_hopeful_end(self@, stone, v);
        }
    }

    // Whether the neighbour `n` is neither a stone of `stone` nor empty.
    fn hostile_at(&self, stone: Stone, n: Vertex) -> (r: bool)
        requires
            self.wf(),
        ensures
            r == self@.hostile(stone, n.0 as int),
    {
        let s = self.stone_at(n);
        !(s == stone || s == Stone::Empty)
    }

    // Whether no neighbour of `vertex` is empty or holds a stone of `stone`.
    fn in_enemy_eye_at(&self, stone: Stone, vertex: Vertex) -> (r: bool)
        requires
            self.wf(),
            22 <= vertex.0 <= 418,
        ensures
            r == self@.in_enemy_eye(stone, vertex.0 as int),
    {
        let ns = neighbours(vertex);
        self.hostile_at(stone, ns[0]) && self.hostile_at(stone, ns[1]) && self.hostile_at(stone, ns[2]) && self.hostile_at(stone, ns[3])
    }

    // Records the move and clears the ko point.
    fn begin_move(&mut self, stone: Stone, vertex: Vertex)
        requires
            old(self).wf(),
        ensures
            final(self).wf(),
            final(self)@ == (Position {
                to_play: stone.spec_opponent(),
                history: old(self)@.history.push(vertex.0 as int),
                ko: -1,
                ..old(self)@
            }),
    {
        self.to_play = stone.opponent();
        self.history.push(vertex);
        self.ko_vertex = Vertex::pass();
        proof {
            assert(self@.history =~= old(self)@.history.push(vertex.0 as int));
            self.lemma_same_stones(old(self));
        }
    }

    // Marks the cell that has just become empty as the ko point.
    fn mark_ko(&mut self)
        requires
            old(self).wf(),
            old(self)@.empties.len() > 0,
        ensures
            final(self).wf(),
            final(self)@ == (Position { ko: old(self)@.empties.last(), ..old(self)@ }),
    {
        self.ko_vertex = self.empty_vertices[self.empty_vertices.len() - 1];
        proof {
            let j = old(self)@.empties.len() - 1;
            assert(old(self)@.empties[j] == self.ko_vertex.0);
            self.lemma_same_stones(old(self));
        }
    }

    // Plays the legal move of a stone at `vertex`.
    #[verifier::rlimit(50)]
    fn play_stone(&mut self, stone: Stone, vertex: Vertex)
        requires
            old(self).wf(),
            stone.is_color(),
            vertex.0 != -1,
            old(self)@.can_play(stone, vertex.0 as int),
        ensures
            final(self).wf(),
            final(self)@ == old(self)@.play(stone, vertex.0 as int),
            final(self)@.board == old(self)@.board_after(stone, vertex.0 as int),
    {
        let ghost pos = self@;
        let ghost v = vertex.0 as int;
        proof {
            assert(on_board(pos.size, v));
            lemma_on_board_interior(pos.size, v);
        }
        // Preparation for ko checking.
        let old_num_empty_vertices = self.empty_vertices.len();
        let played_in_enemy_eye = self.in_enemy_eye_at(stone, vertex);
        self.begin_move(stone, vertex);
        let ghost begun = self@;
        self.put_stone(stone, vertex);
        let ghost placed = self@;
        self.capture_dead_groups(vertex, stone);
        let ghost done = self@;
        proof {
            assert(done.ko == -1);
            assert(pos.in_enemy_eye(stone, v) == played_in_enemy_eye);
            lemma_capture_end(begun, placed, done, stone, v);
            lemma_board_after_frame(begun, pos, stone, v);
            assert(begun.valid_connected()) by {
                reveal(GoGame::components_ok);
            }
            lemma_play_connected(begun, stone, v, placed.head, done);
            self.lemma_settled_wf();
        }
        if played_in_enemy_eye && old_num_empty_vertices == self.empty_vertices.len() {
            proof {
                assert(pos.empties.contains(v));
            }
            self.mark_ko();
        }
    }

    /// Plays the move `vertex` for `stone` if it is legal, and says whether
    /// it was. An illegal move leaves the board as it is. A stone that is
    /// placed takes off the board the opponent strings whose last liberty
    /// it fills, and nothing else.
    pub fn play(&mut self, stone: Stone, vertex: Vertex) -> (r: bool)
        requires
            old(self).wf(),
            stone.is_color(),
        ensures
            final(self).wf(),
            r == old(self)@.can_play(stone, vertex.0 as int),
            final(self)@ == old(self)@.tried(stone, vertex.0 as int),
            r && vertex.0 != -1 ==> final(self)@.board == old(self)@.board_after(stone, vertex.0 as int),
    {
        if !self.can_play(stone, vertex) {
            return false;
        }
        if vertex.0 == -1 {
            self.begin_move(stone, vertex);
        } else {
            self.play_stone(stone, vertex);
        }
        true
    }

    /// Clears the board and tries the first `count` of the moves `moves`
    /// in turn, each for the side to move.
    pub fn replay(&mut self, moves: &Vec<Vertex>, count: usize)
        requires
            old(self).wf(),
            count <= moves@.len(),
        ensures
            final(self).wf(),
            final(self)@ == Position::initial(old(self)@.size).replayed(indices(moves@).subrange(0, count as int)),
            final(self)@.to_play.is_color(),
            final(self)@.size == old(self)@.size,
    {
        let ghost all = indices(moves@);
        let ghost start = Position::initial(old(self)@.size);
        self.reset();
        assert(all.subrange(0, 0) =~= Seq::<int>::empty());
        let mut i: usize = 0;
        while i < count
            invariant
                0 <= i <= count <= moves@.len(),
                all == indices(moves@),
                start.size == old(self)@.size,
                self.wf(),
                self@.to_play.is_color(),
                self@.size == start.size,
                self@ == start.replayed(all.subrange(0, i as int)),
            decreases count - i,
        {
            let to_play = self.to_play;
            let ghost before = self@;
            proof {
                lemma_play_frame(before, to_play, moves@[i as int].0 as int);
                assert(all.subrange(0, i + 1).drop_last() =~= all.subrange(0, i as int));
                assert(all.subrange(0, i + 1).last() == all[i as int]);
            }
            self.play(to_play, moves[i]);
            i += 1;
        }
    }

    /// Takes back the last `num_moves` moves: the board is cleared and
    /// the moves before them are tried again in turn, each by the side to
    /// move. Says false, and changes nothing, if fewer moves were played.
    pub fn undo(&mut self, num_moves: usize) -> (r: bool)
        requires
            old(self).wf(),
        ensures
            final(self).wf(),
            r == (num_moves <= old(self)@.history.len()),
            !r ==> final(self)@ == old(self)@,
            r ==> final(self)@ == Position::initial(old(self)@.size).replayed(
                old(self)@.history.subrange(0, old(self)@.history.len() - num_moves),
            ),
    {
        if num_moves > self.history.len() {
            return false;
        }
        let kept = self.history.len() - num_moves;
        let history = self.moves();
        self.replay(&history, kept);
        true
    }
}

impl Clone for GoGame {
    /// A copy of the game.
    fn clone(&self) -> (r: Self)
        ensures
            r@ == self@,
            self.wf() ==> r.wf(),
    {
        let r = GoGame {
            size: self.size,
            board: self.board.clone(),
            strings: self.strings.clone(),
            string_head: self.string_head.clone(),
            string_next_v: self.string_next_v.clone(),
            empty_vertices: self.empty_vertices.clone(),
            empty_v_index: self.empty_v_index.clone(),
            num_black_stones: self.num_black_stones,
            ko_vertex: self.ko_vertex,
            to_play: self.to_play,
            history: self.history.clone(),
            chains: Ghost(self.chains@),
        };
        proof {
            assert(r.board@ =~= self.board@);
            assert(r.strings@ =~= self.strings@);
            assert(r.string_head@ =~= self.string_head@);
            assert(r.string_next_v@ =~= self.string_next_v@);
            assert(r.empty_vertices@ =~= self.empty_vertices@);
            assert(r.empty_v_index@ =~= self.empty_v_index@);
            assert(r.history@ =~= self.history@);
        }
        r
    }
}

} // verus!
