//! Position hashing with random keys for every cell and stone.

use vstd::prelude::*;
use crate::stone::Stone;
use crate::vertex::{Vertex, in_virtual};
use crate::board::GoGame;
use crate::position::Position;
use crate::rng::random_key;

verus! {

/// Hash of a position.
#[derive(Copy, Clone, Eq, PartialEq, Hash, Debug)]
pub struct PosHash(u64);

impl View for PosHash {
    type V = u64;

    closed spec fn view(&self) -> u64 {
        self.0
    }
}

impl PosHash {
    /// The hash with the bits `h`.
    pub fn new(h: u64) -> (r: PosHash)
        ensures
            r@ == h,
    {
        PosHash(h)
    }

    /// The hash that stands for no position.
    pub fn none() -> (r: PosHash)
        ensures
            r@ == 0,
    {
        PosHash(0)
    }

    /// The hash as an index, cut to the width of an index.
    pub fn as_index(self) -> (i: usize)
        ensures
            i == self@ as usize,
    {
        self.0 as usize
    }

    /// The bits of the hash.
    pub fn bits(self) -> (b: u64)
        ensures
            b == self@,
    {
        self.0
    }

    /// The hash of the combination of two hashes.
    pub fn bitxor(self, rhs: PosHash) -> (r: PosHash)
        ensures
            r@ == self@ ^ rhs@,
    {
        PosHash(self.0 ^ rhs.0)
    }
}

/// Number of keys: one for every cell and each of the four stones.
pub const NUM_KEYS: usize = 1764;

/// Place of a stone in the table of keys.
pub open spec fn stone_offset(stone: Stone) -> int {
    match stone {
        Stone::Empty => 0,
        Stone::Black => 1,
        Stone::White => 2,
        Stone::Border => 3,
    }
}

/// The key of the stone `stone` in the cell `v`.
pub open spec fn key_of(keys: Seq<u64>, v: int, stone: Stone) -> u64 {
    keys[stone_offset(stone) * 441 + v]
}

/// The combined keys of the cells below `n` that are not border.
pub open spec fn hash_upto(keys: Seq<u64>, board: Seq<Stone>, n: int) -> u64
    decreases n,
{
    if n <= 0 {
        0
    } else if board[n - 1] == Stone::Border {
        hash_upto(keys, board, n - 1)
    } else {
        hash_upto(keys, board, n - 1) ^ key_of(keys, n - 1, board[n - 1])
    }
}

/// Changing the stone of a playable cell changes the hash by the key of
/// the old stone and the key of the new one.
pub proof fn lemma_hash_update(keys: Seq<u64>, board: Seq<Stone>, v: int, stone: Stone, n: int)
    requires
        0 <= v < n <= board.len(),
        board[v] != Stone::Border,
        stone != Stone::Border,
    ensures
        hash_upto(keys, board.update(v, stone), n) == hash_upto(keys, board, n) ^ key_of(keys, v, board[v]) ^ key_of(keys, v, stone),
    decreases n,
{
    let changed = board.update(v, stone);
    let old_key = key_of(keys, v, board[v]);
    let new_key = key_of(keys, v, stone);
    if n - 1 == v {
        lemma_hash_same(keys, board, changed, v);
        let before = hash_upto(keys, board, v);
        assert(before ^ new_key == ((before ^ old_key) ^ old_key) ^ new_key) by (bit_vector);
    } else {
        lemma_hash_update(keys, board, v, stone, n - 1);
        let before = hash_upto(keys, board, n - 1);
        if board[n - 1] != Stone::Border {
            let k = key_of(keys, n - 1, board[n - 1]);
            assert(((before ^ old_key) ^ new_key) ^ k == ((before ^ k) ^ old_key) ^ new_key) by (bit_vector);
        }
    }
}

/// Boards that agree below `n` hash alike below `n`.
pub proof fn lemma_hash_same(keys: Seq<u64>, left: Seq<Stone>, right: Seq<Stone>, n: int)
    requires
        0 <= n <= left.len(),
        n <= right.len(),
        forall|i: int| 0 <= i < n ==> left[i] == right[i],
    ensures
        hash_upto(keys, left, n) == hash_upto(keys, right, n),
    decreases n,
{
    if n > 0 {
        lemma_hash_same(keys, left, right, n - 1);
    }
}

/// Random keys for hashing positions.
pub struct BoardHasher {
    vertex_hashes: Vec<PosHash>,
}

impl View for BoardHasher {
    type V = Seq<u64>;

    closed spec fn view(&self) -> Seq<u64> {
        Seq::new(self.vertex_hashes@.len(), |i: int| self.vertex_hashes@[i]@)
    }
}

impl BoardHasher {
    /// The table holds all keys.
    pub open spec fn wf(&self) -> bool {
        self@.len() == 1764
    }

    /// The hash of the position `pos` under these keys: the combination of
    /// the keys of the stones, or of emptiness, in all playable cells.
    pub open spec fn spec_hash(&self, pos: Position) -> u64 {
        hash_upto(self@, pos.board, 441)
    }

    /// A table of keys drawn from `rng`.
    pub fn new(rng: &mut rand::StdRng) -> (r: BoardHasher)
        ensures
            r.wf(),
    {
        let mut vertex_hashes: Vec<PosHash> = Vec::new();
        let mut i: usize = 0;
        while i < NUM_KEYS
            invariant
                0 <= i <= NUM_KEYS,
                vertex_hashes@.len() == i,
            decreases NUM_KEYS - i,
        {
            vertex_hashes.push(PosHash(random_key(rng)));
            i += 1;
        }
        BoardHasher { vertex_hashes: vertex_hashes }
    }

    /// The key of the stone `stone` in the cell `vertex`.
    pub fn hash_for(&self, vertex: Vertex, stone: Stone) -> (r: PosHash)
        requires
            self.wf(),
            in_virtual(vertex.0 as int),
        ensures
            r@ == key_of(self@, vertex.0 as int, stone),
    {
        let offset: usize = match stone {
            Stone::Empty => 0,
            Stone::Black => 1,
            Stone::White => 2,
            Stone::Border => 3,
        };
        self.vertex_hashes[offset * 441 + vertex.as_index()]
    }

    /// The hash of the position of `game`.
    pub fn hash(&self, game: &GoGame) -> (r: PosHash)
        requires
            self.wf(),
            game.wf(),
        ensures
            r@ == self.spec_hash(game@),
    {
        let mut hash = PosHash(0);
        let mut w: i16 = 0;
        proof {
            game.lemma_wf_valid();
        }
        while w < 441
            invariant
                0 <= w <= 441,
                self.wf(),
                game.wf(),
                game@.board.len() == 441,
                hash@ == hash_upto(self@, game@.board, w as int),
            decreases 441 - w,
        {
            let v = Vertex(w);
            let stone = game.stone_at(v);
            if stone != Stone::Border {
                hash = hash.bitxor(self.hash_for(v, stone));
            }
            w += 1;
        }
        hash
    }
}

impl GoGame {
    /// The hash of the position under the keys of `hasher`.
    pub fn position_hash(&self, hasher: &BoardHasher) -> (r: PosHash)
        requires
            self.wf(),
            hasher.wf(),
        ensures
            r@ == hasher.spec_hash(self@),
    {
        hasher.hash(self)
    }
}

} // verus!
