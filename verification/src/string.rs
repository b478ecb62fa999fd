//! Liberty summaries of a string of stones.

use vstd::prelude::*;
use crate::stone::Stone;
use crate::vertex::Vertex;

verus! {

/// Pseudo-liberty count of a border cell that has lost no liberty.
pub const BORDER_LIBERTIES: u16 = 4;

/// Liberty sum of a border cell that has lost no liberty.
pub const BORDER_SUM: u32 = 32768;

/// Squared liberty sum of a border cell that has lost no liberty.
pub const BORDER_SUM_SQUARED: u32 = 2147483648;

/// What a `String` stands for: its color, its number of stones, and over its
/// pseudo-liberties their number, the sum of their indices and the sum of
/// the squares of their indices.
pub struct StringView {
    pub color: Stone,
    pub num_stones: nat,
    pub count: nat,
    pub sum: nat,
    pub sum_squared: nat,
}

impl StringView {
    /// The pseudo-liberty test for a single liberty: the count times the
    /// sum of squares equals the square of the sum.
    pub open spec fn in_atari(self) -> bool {
        self.count * self.sum_squared == self.sum * self.sum
    }

    /// The summary with one more pseudo-liberty at index `v`.
    pub open spec fn with_liberty(self, v: nat) -> StringView {
        StringView {
            count: self.count + 1,
            sum: self.sum + v,
            sum_squared: self.sum_squared + v * v,
            ..self
        }
    }

    /// The summary of two strings taken together.
    pub open spec fn merged(self, other: StringView) -> StringView {
        StringView {
            color: self.color,
            num_stones: self.num_stones + other.num_stones,
            count: self.count + other.count,
            sum: self.sum + other.sum,
            sum_squared: self.sum_squared + other.sum_squared,
        }
    }
}

/// A number of directly connected stones of one color, summarised by
/// counters over its pseudo-liberties: each pair of a stone and an empty
/// orthogonal neighbour counts once.
#[derive(Clone, Copy, Debug)]
pub struct String {
    color: Stone,
    pub num_stones: u16,
    pub num_pseudo_liberties: u16,
    liberty_vertex_sum: u32,
    liberty_vertex_sum_squared: u32,
}

impl View for String {
    type V = StringView;

    closed spec fn view(&self) -> StringView {
        StringView {
            color: self.color,
            num_stones: self.num_stones as nat,
            count: self.num_pseudo_liberties as nat,
            sum: self.liberty_vertex_sum as nat,
            sum_squared: self.liberty_vertex_sum_squared as nat,
        }
    }
}

impl String {
    /// A string without stones or liberties.
    pub fn new() -> (s: String)
        ensures
            s@ == (StringView { color: Stone::Empty, num_stones: 0, count: 0, sum: 0, sum_squared: 0 }),
    {
        String {
            color: Stone::Empty,
            num_stones: 0,
            num_pseudo_liberties: 0,
            liberty_vertex_sum: 0,
            liberty_vertex_sum_squared: 0,
        }
    }

    /// Clears the string to no stones and no liberties.
    pub fn reset(&mut self)
        ensures
            final(self)@ == (StringView { color: Stone::Empty, num_stones: 0, count: 0, sum: 0, sum_squared: 0 }),
    {
        self.color = Stone::Empty;
        self.num_stones = 0;
        self.num_pseudo_liberties = 0;
        self.liberty_vertex_sum = 0;
        self.liberty_vertex_sum_squared = 0;
    }

    /// Sets the string to the summary of a border cell, whose counters are
    /// large enough that taking away its few liberties never exhausts them.
    pub fn reset_border(&mut self)
        ensures
            final(self)@ == (StringView {
                color: Stone::Empty,
                num_stones: 0,
                count: 4,
                sum: 32768,
                sum_squared: 2147483648,
            }),
    {
        self.color = Stone::Empty;
        self.num_stones = 0;
        self.num_pseudo_liberties = BORDER_LIBERTIES;
        self.liberty_vertex_sum = BORDER_SUM;
        self.liberty_vertex_sum_squared = BORDER_SUM_SQUARED;
    }

    /// Adds the stones and the liberty counters of `other` to this string.
    pub fn merge(&mut self, other: &String)
        requires
            old(self)@.num_stones + other@.num_stones <= u16::MAX,
            old(self)@.count + other@.count <= u16::MAX,
            old(self)@.sum + other@.sum <= u32::MAX,
            old(self)@.sum_squared + other@.sum_squared <= u32::MAX,
        ensures
            final(self)@ == old(self)@.merged(other@),
    {
        self.num_stones += other.num_stones;
        self.num_pseudo_liberties += other.num_pseudo_liberties;
        self.liberty_vertex_sum += other.liberty_vertex_sum;
        self.liberty_vertex_sum_squared += other.liberty_vertex_sum_squared;
    }

    /// Whether the counters are those of a single liberty.
    pub fn in_atari(&self) -> (r: bool)
        ensures
            r == self@.in_atari(),
    {
        let n: u64 = self.num_pseudo_liberties as u64;
        let s: u64 = self.liberty_vertex_sum as u64;
        let q: u64 = self.liberty_vertex_sum_squared as u64;
        assert(n * q <= 0xffff * 0xffff_ffff) by (nonlinear_arith)
            requires
                n <= 0xffff,
                q <= 0xffff_ffff,
        ;
        assert(s * s <= 0xffff_ffff * 0xffff_ffff) by (nonlinear_arith)
            requires
                s <= 0xffff_ffff,
        ;
        n * q == s * s
    }

    /// Counts one more pseudo-liberty at `vertex`.
    pub fn add_liberty(&mut self, vertex: Vertex)
        requires
            vertex.0 >= 0,
            old(self)@.count + 1 <= u16::MAX,
            old(self)@.sum + vertex.0 <= u32::MAX,
            old(self)@.sum_squared + vertex.0 * vertex.0 <= u32::MAX,
        ensures
            final(self)@ == old(self)@.with_liberty(vertex.0 as nat),
    {
        let v: u32 = vertex.0 as u32;
        assert(v * v == vertex.0 * vertex.0);
        self.num_pseudo_liberties += 1;
        self.liberty_vertex_sum += v;
        self.liberty_vertex_sum_squared += v * v;
    }

    /// Takes back one pseudo-liberty at `vertex`.
    pub fn remove_liberty(&mut self, vertex: Vertex)
        requires
            vertex.0 >= 0,
            old(self)@.count >= 1,
            old(self)@.sum >= vertex.0,
            old(self)@.sum_squared >= vertex.0 * vertex.0,
        ensures
            old(self)@ == final(self)@.with_liberty(vertex.0 as nat),
            final(self)@.color == old(self)@.color,
            final(self)@.num_stones == old(self)@.num_stones,
    {
        let v: u32 = vertex.0 as u32;
        assert(v * v == vertex.0 * vertex.0);
        assert(v * v <= 32767 * 32767) by (nonlinear_arith)
            requires
                v <= 32767,
        ;
        self.num_pseudo_liberties -= 1;
        self.liberty_vertex_sum -= v;
        self.liberty_vertex_sum_squared -= v * v;
    }

    /// Sets the color and the number of stones.
    pub fn set_stones(&mut self, color: Stone, num_stones: u16)
        ensures
            final(self)@ == (StringView { color: color, num_stones: num_stones as nat, ..old(self)@ }),
    {
        self.color = color;
        self.num_stones = num_stones;
    }

    /// Number of stones of the string.
    pub fn stones(&self) -> (n: u16)
        ensures
            n == self@.num_stones,
    {
        self.num_stones
    }

    /// Number of pseudo-liberties of the string.
    pub fn pseudo_liberties(&self) -> (n: u16)
        ensures
            n == self@.count,
    {
        self.num_pseudo_liberties
    }

    /// The color of the string's stones.
    pub fn color(&self) -> (c: Stone)
        ensures
            c == self@.color,
    {
        self.color
    }
}

} // verus!
