//! Monte-Carlo tree search with rapid action value estimates.

use vstd::prelude::*;
use crate::stone::Stone;
use crate::vertex::{Vertex, indices};
use crate::board::GoGame;
use crate::rng::shuffle_moves;
use crate::position::Position;
use crate::rules::{lemma_possible_moves, lemma_play_frame};

verus! {

/// Visits that every new node starts with, half of them won.
pub const NODE_PRIOR: u32 = 10;

/// Visits above which a leaf gets its children.
pub const EXPANSION_THRESHOLD: u32 = 18;

/// Number of visits at which the two estimates weigh the same.
pub const RAVE_EQUIV: u64 = 3500;

/// Largest number of simulations of one search; up to it the urgencies
/// are compared exactly in 128 bits.
pub const MAX_ROLLOUTS: u32 = 1073741824;

/// Number of moves after which a playout is given up.
pub const MAX_ROLLOUT_MOVES: u32 = 700;

/// Twice the compensation that White gets.
pub const DOUBLE_KOMI: i16 = 13;

/// A node of the search tree: the position after `player` has played at
/// `vertex`.
pub struct Node {
    /// The side whose move leads to this node.
    pub player: Stone,
    /// The move that leads to this node; the pass for the root.
    pub vertex: Vertex,
    /// Index of the node that this is a child of; the root names itself.
    pub parent: usize,
    /// The moves tried from here, each with the index of its node.
    pub children: Vec<(Vertex, usize)>,
    /// Number of simulations through this node, and the prior.
    pub num_plays: u32,
    /// Number of these that `player` won.
    pub num_wins: u32,
    /// Number of simulations in which `player` played `vertex` first,
    /// counted whenever the parent was visited.
    pub num_rave_plays: u32,
    /// Number of these that `player` won.
    pub num_rave_wins: u32,
}

/// Numerator of the urgency of a node with the given wins, rave plays and
/// rave wins.
pub open spec fn urgency_num(wins: int, rave_plays: int, rave_wins: int) -> int {
    3500 * rave_wins + (3500 + rave_plays) * wins
}

/// Denominator of the urgency of a node with the given plays and rave plays.
pub open spec fn urgency_den(plays: int, rave_plays: int) -> int {
    3500 * rave_plays + 3500 * plays + rave_plays * plays
}

/// The urgency as one fraction is the blend of the two win rates: with
/// the weight `3500 * rave_plays / den` for the rave rate
/// `rave_wins / rave_plays` and the rest of the weight for the rate
/// `wins / plays`. Stated with all denominators multiplied out.
pub proof fn lemma_urgency_is_blend(plays: int, wins: int, rave_plays: int, rave_wins: int)
    ensures
        urgency_num(wins, rave_plays, rave_wins) * (rave_plays * plays) == (3500 * rave_plays) * (rave_wins * plays) + (urgency_den(plays, rave_plays)
            - 3500 * rave_plays) * (wins * rave_plays),
        rave_plays == 0 && rave_wins == 0 ==> urgency_num(wins, rave_plays, rave_wins) * plays == wins * urgency_den(plays, rave_plays),
{
    assert(urgency_num(wins, rave_plays, rave_wins) * (rave_plays * plays) == (3500 * rave_plays) * (rave_wins * plays) + (urgency_den(plays, rave_plays)
        - 3500 * rave_plays) * (wins * rave_plays)) by (nonlinear_arith)
        requires
            urgency_num(wins, rave_plays, rave_wins) == 3500 * rave_wins + (3500 + rave_plays) * wins,
            urgency_den(plays, rave_plays) == 3500 * rave_plays + 3500 * plays + rave_plays * plays,
    ;
    if rave_plays == 0 && rave_wins == 0 {
        assert(urgency_num(wins, rave_plays, rave_wins) * plays == wins * urgency_den(plays, rave_plays)) by (nonlinear_arith)
            requires
                rave_plays == 0,
                rave_wins == 0,
                urgency_num(wins, rave_plays, rave_wins) == 3500 * rave_wins + (3500 + rave_plays) * wins,
                urgency_den(plays, rave_plays) == 3500 * rave_plays + 3500 * plays + rave_plays * plays,
        ;
    }
}

impl Node {
    /// Numerator of the urgency of the node.
    pub open spec fn num(&self) -> int {
        urgency_num(self.num_wins as int, self.num_rave_plays as int, self.num_rave_wins as int)
    }

    /// Denominator of the urgency of the node.
    pub open spec fn den(&self) -> int {
        urgency_den(self.num_plays as int, self.num_rave_plays as int)
    }

    /// The urgency of the node is above that of `other`.
    pub open spec fn more_urgent_than(&self, other: &Node) -> bool {
        self.num() * other.den() > other.num() * self.den()
    }

    /// The counters are within the bounds of a search of `sims`
    /// simulations.
    pub open spec fn counted(&self, sims: int) -> bool {
        &&& 10 <= self.num_plays <= 10 + sims
        &&& self.num_wins <= self.num_plays
        &&& self.num_rave_wins <= self.num_rave_plays <= sims
    }

    /// A node for the position after a move of `player`, without children
    /// and with the prior as its visits.
    pub fn new(player: Stone) -> (n: Node)
        ensures
            n.player == player,
            n.vertex.0 == -1,
            n.parent == 0,
            n.children@.len() == 0,
            n.num_plays == 10,
            n.num_wins == 5,
            n.num_rave_plays == 0,
            n.num_rave_wins == 0,
    {
        Node {
            player: player,
            vertex: Vertex::pass(),
            parent: 0,
            children: Vec::new(),
            num_plays: NODE_PRIOR,
            num_wins: NODE_PRIOR / 2,
            num_rave_plays: 0,
            num_rave_wins: 0,
        }
    }

    /// The urgency of the node as a fraction: the blend of its win rate
    /// and its rave win rate, the latter with the weight
    /// `rave_plays / (rave_plays + plays + rave_plays * plays / 3500)`.
    pub fn rave_urgency(&self) -> (r: (u128, u128))
        requires
            self.num_plays <= 2147483648,
            self.num_wins <= 2147483648,
            self.num_rave_plays <= 2147483648,
            self.num_rave_wins <= 2147483648,
        ensures
            r.0 == self.num(),
            r.1 == self.den(),
            r.0 <= 0x8000_0000_0000_0000,
            r.1 <= 0x8000_0000_0000_0000,
    {
        let p: u128 = self.num_plays as u128;
        let w: u128 = self.num_wins as u128;
        let rp: u128 = self.num_rave_plays as u128;
        let rw: u128 = self.num_rave_wins as u128;
        assert((3500 + rp) * w <= (3500 + 2147483648) * 2147483648) by (nonlinear_arith)
            requires
                rp <= 2147483648,
                w <= 2147483648,
        ;
        assert(rp * p <= 2147483648 * 2147483648) by (nonlinear_arith)
            requires
                rp <= 2147483648,
                p <= 2147483648,
        ;
        (3500 * rw + (3500 + rp) * w, 3500 * rp + 3500 * p + rp * p)
    }

    /// Whether the urgency of the node is above that of `other`.
    pub fn is_more_urgent_than(&self, other: &Node) -> (r: bool)
        requires
            self.counted(1073741824),
            other.counted(1073741824),
        ensures
            r == self.more_urgent_than(other),
    {
        let a = self.rave_urgency();
        let b = other.rave_urgency();
        assert(a.0 * b.1 <= 0x8000_0000_0000_0000 * 0x8000_0000_0000_0000) by (nonlinear_arith)
            requires
                a.0 <= 0x8000_0000_0000_0000,
                b.1 <= 0x8000_0000_0000_0000,
        ;
        assert(b.0 * a.1 <= 0x8000_0000_0000_0000 * 0x8000_0000_0000_0000) by (nonlinear_arith)
            requires
                b.0 <= 0x8000_0000_0000_0000,
                a.1 <= 0x8000_0000_0000_0000,
        ;
        a.0 * b.1 > b.0 * a.1
    }
}

/// The position among the first `n` children of the one with the most
/// visits, the first of several; 0 without children.
pub open spec fn most_visited_upto(children: Seq<(Vertex, usize)>, nodes: Seq<Node>, n: int) -> int
    decreases n,
{
    if n <= 1 {
        0
    } else {
        let best = most_visited_upto(children, nodes, n - 1);
        if nodes[children[n - 1].1 as int].num_plays > nodes[children[best].1 as int].num_plays {
            n - 1
        } else {
            best
        }
    }
}

/// The position among the first `n` children of the most urgent one, the
/// first of several; 0 without children.
pub open spec fn most_urgent_upto(children: Seq<(Vertex, usize)>, nodes: Seq<Node>, n: int) -> int
    decreases n,
{
    if n <= 1 {
        0
    } else {
        let best = most_urgent_upto(children, nodes, n - 1);
        if nodes[children[n - 1].1 as int].more_urgent_than(&nodes[children[best].1 as int]) {
            n - 1
        } else {
            best
        }
    }
}

/// No child before the chosen one has as many visits, and none has more.
pub proof fn lemma_most_visited(children: Seq<(Vertex, usize)>, nodes: Seq<Node>, n: int)
    requires
        1 <= n <= children.len(),
    ensures
        0 <= most_visited_upto(children, nodes, n) < n,
        forall|c: int| 0 <= c < n ==> nodes[(#[trigger] children[c]).1 as int].num_plays <= nodes[children[most_visited_upto(children, nodes, n)].1 as int].num_plays,
        forall|c: int| 0 <= c < most_visited_upto(children, nodes, n) ==> nodes[(#[trigger] children[c]).1 as int].num_plays < nodes[children[most_visited_upto(
            children,
            nodes,
            n,
        )].1 as int].num_plays,
    decreases n,
{
    if n > 1 {
        lemma_most_visited(children, nodes, n - 1);
    }
}

/// The order of urgencies is transitive: a node that is not more urgent
/// than a second, than which a third is more urgent, is not more urgent
/// than the third.
pub proof fn lemma_urgency_order(a: Node, b: Node, c: Node)
    requires
        a.den() > 0,
        b.den() > 0,
        c.den() > 0,
        !a.more_urgent_than(&b),
        c.more_urgent_than(&b),
    ensures
        !a.more_urgent_than(&c),
{
    let an = a.num();
    let ad = a.den();
    let bn = b.num();
    let bd = b.den();
    let cn = c.num();
    let cd = c.den();
    assert(an * bd <= bn * ad);
    assert(bn * cd < cn * bd);
    assert((an * bd) * cd <= (bn * ad) * cd) by (nonlinear_arith)
        requires
            an * bd <= bn * ad,
            cd > 0,
    ;
    assert((bn * cd) * ad < (cn * bd) * ad) by (nonlinear_arith)
        requires
            bn * cd < cn * bd,
            ad > 0,
    ;
    assert((an * bd) * cd == bd * (an * cd)) by (nonlinear_arith);
    assert((bn * ad) * cd == (bn * cd) * ad) by (nonlinear_arith);
    assert((cn * bd) * ad == bd * (cn * ad)) by (nonlinear_arith);
    assert(an * cd < cn * ad) by (nonlinear_arith)
        requires
            bd * (an * cd) < bd * (cn * ad),
            bd > 0,
    ;
}

/// The denominator of the urgency of a node with visits is positive.
pub proof fn lemma_urgency_den(n: Node)
    requires
        n.num_plays >= 1,
    ensures
        n.den() > 0,
{
    assert(n.num_rave_plays * n.num_plays >= 0) by (nonlinear_arith)
        requires
            n.num_rave_plays >= 0,
            n.num_plays >= 0,
    ;
}

/// No child is more urgent than the chosen one.
pub proof fn lemma_most_urgent(children: Seq<(Vertex, usize)>, nodes: Seq<Node>, n: int)
    requires
        1 <= n <= children.len(),
        forall|c: int| 0 <= c < children.len() ==> (#[trigger] children[c]).1 < nodes.len(),
        forall|i: int| 0 <= i < nodes.len() ==> (#[trigger] nodes[i]).num_plays >= 1,
    ensures
        0 <= most_urgent_upto(children, nodes, n) < n,
        forall|c: int| 0 <= c < n ==> !nodes[(#[trigger] children[c]).1 as int].more_urgent_than(&nodes[children[most_urgent_upto(children, nodes, n)].1 as int]),
    decreases n,
{
    if n > 1 {
        lemma_most_urgent(children, nodes, n - 1);
        let before = most_urgent_upto(children, nodes, n - 1);
        let best = most_urgent_upto(children, nodes, n);
        let last = nodes[children[n - 1].1 as int];
        if best == n - 1 {
            assert forall|c: int| 0 <= c < n implies !nodes[(#[trigger] children[c]).1 as int].more_urgent_than(&last) by {
                if c < n - 1 {
                    let x = nodes[children[c].1 as int];
                    let y = nodes[children[before].1 as int];
                    lemma_urgency_den(x);
                    lemma_urgency_den(y);
                    lemma_urgency_den(last);
                    lemma_urgency_order(x, y, last);
                }
            }
        }
    }
}

impl Node {
    /// The child with the most visits, as its move and its index; the first
    /// of several.
    pub fn best_move(&self, nodes: &Vec<Node>) -> (r: (Vertex, usize))
        requires
            self.children@.len() > 0,
            forall|c: int| 0 <= c < self.children@.len() ==> (#[trigger] self.children@[c]).1 < nodes@.len(),
        ensures
            r == self.children@[most_visited_upto(self.children@, nodes@, self.children@.len() as int)],
            self.children@.contains(r),
    {
        let mut max_visits: u32 = nodes[self.children[0].1].num_plays;
        let mut best_child: usize = 0;
        let mut i: usize = 1;
        while i < self.children.len()
            invariant
                1 <= i <= self.children@.len(),
                forall|c: int| 0 <= c < self.children@.len() ==> (#[trigger] self.children@[c]).1 < nodes@.len(),
                best_child == most_visited_upto(self.children@, nodes@, i as int),
                0 <= best_child < i,
                max_visits == nodes@[self.children@[best_child as int].1 as int].num_plays,
            decreases self.children@.len() - i,
        {
            let num_plays = nodes[self.children[i].1].num_plays;
            if num_plays > max_visits {
                best_child = i;
                max_visits = num_plays;
            }
            i += 1;
        }
        self.children[best_child]
    }

    /// The most urgent child, as its move and its index; the first of
    /// several.
    pub fn best_child(&self, nodes: &Vec<Node>) -> (r: (Vertex, usize))
        requires
            self.children@.len() > 0,
            forall|c: int| 0 <= c < self.children@.len() ==> (#[trigger] self.children@[c]).1 < nodes@.len(),
            forall|i: int| 0 <= i < nodes@.len() ==> (#[trigger] nodes@[i]).counted(1073741824),
        ensures
            r == self.children@[most_urgent_upto(self.children@, nodes@, self.children@.len() as int)],
            self.children@.contains(r),
    {
        let mut best_child: usize = 0;
        let mut i: usize = 1;
        while i < self.children.len()
            invariant
                1 <= i <= self.children@.len(),
                forall|c: int| 0 <= c < self.children@.len() ==> (#[trigger] self.children@[c]).1 < nodes@.len(),
                forall|i: int| 0 <= i < nodes@.len() ==> (#[trigger] nodes@[i]).counted(1073741824),
                best_child == most_urgent_upto(self.children@, nodes@, i as int),
                0 <= best_child < i,
            decreases self.children@.len() - i,
        {
            let candidate = &nodes[self.children[i].1];
            let best = &nodes[self.children[best_child].1];
            if candidate.is_more_urgent_than(best) {
                best_child = i;
            }
            i += 1;
        }
        self.children[best_child]
    }
}

/// The entry of a child in the node `i` agrees with the child: it names a
/// later node whose parent is `i`, whose move is at the cell of the entry
/// and whose player is the opponent of that of `i`.
pub open spec fn child_ok(nodes: Seq<Node>, i: int, entry: (Vertex, usize)) -> bool {
    &&& i < entry.1 < nodes.len()
    &&& nodes[entry.1 as int].parent == i
    &&& nodes[entry.1 as int].vertex == entry.0
    &&& nodes[entry.1 as int].player == nodes[i].player.spec_opponent()
    &&& 0 <= entry.0.0 < 441
}

/// The node `i` is played by a color and lists each of its children once,
/// with entries that agree with them.
pub open spec fn linked(nodes: Seq<Node>, i: int) -> bool {
    &&& nodes[i].player.is_color()
    &&& nodes[i].children@.no_duplicates()
    &&& forall|c: int| 0 <= c < nodes[i].children@.len() ==> child_ok(nodes, i, #[trigger] nodes[i].children@[c])
}

/// The moves of a list of children.
pub open spec fn moves_of(children: Seq<(Vertex, usize)>) -> Seq<int> {
    Seq::new(children.len(), |c: int| children[c].0.0 as int)
}

/// A sequence with the same entries as another, each as often, has its
/// length, holds only entries of the other, and has no duplicates if the
/// other has none.
pub proof fn lemma_permuted(old: Seq<(Vertex, usize)>, new: Seq<(Vertex, usize)>)
    requires
        new.to_multiset() == old.to_multiset(),
    ensures
        new.len() == old.len(),
        forall|c: int| 0 <= c < new.len() ==> old.contains(#[trigger] new[c]),
        forall|c: int| 0 <= c < old.len() ==> new.contains(#[trigger] old[c]),
        old.no_duplicates() ==> new.no_duplicates(),
{
    old.to_multiset_ensures();
    new.to_multiset_ensures();
    assert forall|c: int| 0 <= c < new.len() implies old.contains(#[trigger] new[c]) by {
        assert(new.contains(new[c]));
        assert(new.to_multiset().count(new[c]) > 0);
    }
    assert forall|c: int| 0 <= c < old.len() implies new.contains(#[trigger] old[c]) by {
        assert(old.contains(old[c]));
        assert(old.to_multiset().count(old[c]) > 0);
    }
    if old.no_duplicates() {
        old.lemma_multiset_has_no_duplicates();
        new.lemma_multiset_has_no_duplicates_conv();
    }
}

/// Whether Black wins with the area score `score`: twice the score must
/// exceed twice the compensation.
pub fn score_wins(score: i16) -> (r: bool)
    ensures
        r == (2 * score - 13 > 0),
{
    let doubled: i32 = 2 * (score as i32);
    doubled - (DOUBLE_KOMI as i32) > 0
}

/// The state of a playout: the position, the color that moved last, the
/// number of passes in a row and of moves so far, and the marks of who
/// played first on which cell.
pub struct Playout {
    pub pos: Position,
    pub color: Stone,
    pub passes: int,
    pub moves: int,
    pub amaf: Seq<Stone>,
}

/// One move of a playout: the other color moves, at the first legal cell
/// from position `start` of the list of empty cells, or passes if there is
/// none. A stone is played and marked if its cell has no mark yet.
pub open spec fn playout_step(s: Playout, start: int) -> Playout {
    let color = s.color.spec_opponent();
    let v = s.pos.move_from(color, start);
    if v == -1 {
        Playout { color: color, passes: s.passes + 1, moves: s.moves + 1, ..s }
    } else {
        Playout {
            pos: s.pos.play(color, v),
            color: color,
            passes: 0,
            moves: s.moves + 1,
            amaf: if s.amaf[v] == Stone::Empty {
                s.amaf.update(v, color)
            } else {
                s.amaf
            },
        }
    }
}

/// The playout has ended: both sides have passed, or it has gone beyond
/// 700 moves.
pub open spec fn playout_over(s: Playout) -> bool {
    s.passes >= 2 || s.moves > 700
}

/// The playout after one move for each of `starts`.
pub open spec fn playout_run(s: Playout, starts: Seq<int>) -> Playout
    decreases starts.len(),
{
    if starts.len() == 0 {
        s
    } else {
        playout_step(playout_run(s, starts.drop_last()), starts.last())
    }
}

/// The playout with the moves of `starts` ends with the last of them and
/// not before.
pub open spec fn playout_ends(s: Playout, starts: Seq<int>) -> bool {
    &&& playout_over(playout_run(s, starts))
    &&& forall|n: int| 0 <= n < starts.len() ==> !playout_over(playout_run(s, #[trigger] starts.subrange(0, n)))
}

/// What a playout leaves: the game and the marks are those at its end,
/// and Black has won if it has ended within 700 moves with a score that
/// exceeds the compensation.
pub open spec fn playout_result(end: Playout, pos: Position, amaf: Seq<Stone>, black_wins: bool) -> bool {
    &&& pos == end.pos
    &&& amaf == end.amaf
    &&& black_wins == (end.moves <= 700 && 2 * end.pos.chinese_score() - 13 > 0)
}

/// The playout before its first move, when `last_move` has moved last.
pub open spec fn playout_begin(pos: Position, last_move: Stone, amaf: Seq<Stone>) -> Playout {
    Playout { pos: pos, color: last_move, passes: 0, moves: 0, amaf: amaf }
}

/// The playout from `begin` with the moves of `starts` ends with the last
/// of them, and leaves the game `pos`, the marks `amaf` and the result
/// `black_wins`.
pub open spec fn playout_outcome(begin: Playout, starts: Seq<int>, pos: Position, amaf: Seq<Stone>, black_wins: bool) -> bool {
    playout_ends(begin, starts) && playout_result(playout_run(begin, starts), pos, amaf, black_wins)
}

/// Plays random legal moves in turn, beginning with the opponent of
/// `last_move`, until both sides pass in a row, and says whether Black
/// wins the final position. A game of more than 700 moves is given up and
/// counts as not won. Every cell that a stone is played on and that
/// `amaf_color_map` holds empty is marked there with the color played.
/// Each move is the first legal one from some position of the list of
/// empty cells.
pub fn black_wins(game: &mut GoGame, last_move: Stone, rng: &mut rand::StdRng, amaf_color_map: &mut Vec<Stone>) -> (r: bool)
    requires
        old(game).wf(),
        last_move.is_color(),
        old(amaf_color_map)@.len() == 441,
    ensures
        final(game).wf(),
        final(game)@.size == old(game)@.size,
        final(amaf_color_map)@.len() == 441,
        r ==> 2 * final(game)@.chinese_score() - 13 > 0,
        forall|v: int| 0 <= v < 441 && old(amaf_color_map)@[v] != Stone::Empty ==> #[trigger] final(amaf_color_map)@[v] == old(amaf_color_map)@[v],
        exists|starts: Seq<int>|
            playout_outcome(playout_begin(old(game)@, last_move, old(amaf_color_map)@), starts, final(game)@, final(amaf_color_map)@, r),
{
    let mut color_to_play = last_move;
    let mut num_consecutive_passes: u32 = 0;
    let mut num_moves: u32 = 0;
    let ghost begin = playout_begin(game@, last_move, amaf_color_map@);
    let ghost starts: Seq<int> = Seq::empty();
    while num_consecutive_passes < 2
        invariant
            game.wf(),
            game@.size == old(game)@.size,
            color_to_play.is_color(),
            amaf_color_map@.len() == 441,
            num_moves <= 700,
            num_consecutive_passes <= 2,
            forall|v: int| 0 <= v < 441 && old(amaf_color_map)@[v] != Stone::Empty ==> #[trigger] amaf_color_map@[v] == old(amaf_color_map)@[v],
            begin == playout_begin(old(game)@, last_move, old(amaf_color_map)@),
            playout_run(begin, starts) == (Playout {
                pos: game@,
                color: color_to_play,
                passes: num_consecutive_passes as int,
                moves: num_moves as int,
                amaf: amaf_color_map@,
            }),
            forall|n: int| 0 <= n < starts.len() ==> !playout_over(playout_run(begin, #[trigger] starts.subrange(0, n))),
        decreases 701 - num_moves,
    {
        let ghost before = playout_run(begin, starts);
        let ghost earlier = starts;
        color_to_play = color_to_play.opponent();
        num_moves += 1;
        let v = game.random_move(color_to_play, rng);
        proof {
            let start = if game@.empties.len() > 0 {
                choose|start: int| 0 <= start < game@.empties.len() && v.0 == game@.move_from(color_to_play, start)
            } else {
                0
            };
            starts = earlier.push(start);
            assert(starts.drop_last() =~= earlier);
            assert(starts.last() == start);
            assert(before.pos.move_from(color_to_play, start) == v.0);
            assert forall|n: int| 0 <= n < starts.len() implies !playout_over(playout_run(begin, #[trigger] starts.subrange(0, n))) by {
                if n < earlier.len() {
                    assert(starts.subrange(0, n) =~= earlier.subrange(0, n));
                } else {
                    assert(starts.subrange(0, n) =~= earlier);
                }
            }
        }
        if v.0 == -1 {
            num_consecutive_passes += 1;
        } else {
            proof {
                game.lemma_wf_valid();
                lemma_play_frame(game@, color_to_play, v.0 as int);
            }
            if amaf_color_map[v.as_index()] == Stone::Empty {
                amaf_color_map[v.as_index()] = color_to_play;
            }
            game.play(color_to_play, v);
            num_consecutive_passes = 0;
        }
        if num_moves > MAX_ROLLOUT_MOVES {
            proof {
                assert(playout_ends(begin, starts));
                assert(playout_outcome(begin, starts, game@, amaf_color_map@, false));
            }
            return false;
        }
    }
    let r = score_wins(game.chinese_score());
    proof {
        assert(playout_ends(begin, starts));
        assert(playout_outcome(begin, starts, game@, amaf_color_map@, r));
    }
    r
}

/// The nodes agree but for the order of their children.
pub open spec fn same_but_order(a: Node, b: Node) -> bool {
    &&& a.player == b.player
    &&& a.vertex == b.vertex
    &&& a.parent == b.parent
    &&& a.num_plays == b.num_plays
    &&& a.num_wins == b.num_wins
    &&& a.num_rave_plays == b.num_rave_plays
    &&& a.num_rave_wins == b.num_rave_wins
    &&& a.children@.to_multiset() == b.children@.to_multiset()
}

/// The nodes agree but for their counters.
pub open spec fn same_but_counters(a: Node, b: Node) -> bool {
    &&& a.player == b.player
    &&& a.vertex == b.vertex
    &&& a.parent == b.parent
    &&& a.children == b.children
}

/// The node `c` is a child of the node `p`, and no child of `p` is more
/// urgent than it.
pub open spec fn most_urgent_child(nodes: Seq<Node>, p: int, c: int) -> bool {
    &&& exists|d: int| 0 <= d < nodes[p].children@.len() && (#[trigger] nodes[p].children@[d]).1 == c
    &&& forall|d: int| 0 <= d < nodes[p].children@.len() ==> !nodes[(#[trigger] nodes[p].children@[d]).1 as int].more_urgent_than(&nodes[c])
}

/// The node at `j + 1` of the path is a most urgent child of the node at
/// `j`.
pub open spec fn chosen_at(nodes: Seq<Node>, path: Seq<usize>, j: int) -> bool {
    most_urgent_child(nodes, path[j] as int, path[j + 1] as int)
}

/// The position after the moves of the nodes at 1 to `n` of the path have
/// been tried in turn, each by the player of its node.
pub open spec fn descent_game(pos: Position, nodes: Seq<Node>, path: Seq<usize>, n: int) -> Position
    decreases n,
{
    if n <= 0 {
        pos
    } else {
        descent_game(pos, nodes, path, n - 1).tried(nodes[path[n] as int].player, nodes[path[n] as int].vertex.0 as int)
    }
}

/// The marks after the moves of the nodes at 1 to `n` of the path: each
/// cell without a mark gets the color of the player who moved there.
pub open spec fn descent_marks(amaf: Seq<Stone>, nodes: Seq<Node>, path: Seq<usize>, n: int) -> Seq<Stone>
    decreases n,
{
    if n <= 0 {
        amaf
    } else {
        let marks = descent_marks(amaf, nodes, path, n - 1);
        let node = nodes[path[n] as int];
        if marks[node.vertex.0 as int] == Stone::Empty {
            marks.update(node.vertex.0 as int, node.player)
        } else {
            marks
        }
    }
}

/// The game and the marks of a descent depend on the players and the
/// moves of the nodes of the path, up to the step looked at.
pub proof fn lemma_descent_frame(pos: Position, amaf: Seq<Stone>, nodes: Seq<Node>, path: Seq<usize>, others: Seq<Node>, longer: Seq<usize>, n: int)
    requires
        0 <= n < path.len(),
        path.len() <= longer.len(),
        forall|j: int| 0 <= j < path.len() ==> path[j] == longer[j],
        forall|j: int| 0 <= j < path.len() ==> 0 <= #[trigger] path[j] < nodes.len(),
        nodes.len() == others.len(),
        forall|i: int| 0 <= i < nodes.len() ==> (#[trigger] nodes[i]).player == others[i].player && nodes[i].vertex == others[i].vertex,
    ensures
        descent_game(pos, nodes, path, n) == descent_game(pos, others, longer, n),
        descent_marks(amaf, nodes, path, n) == descent_marks(amaf, others, longer, n),
    decreases n,
{
    if n > 0 {
        lemma_descent_frame(pos, amaf, nodes, path, others, longer, n - 1);
        assert(path[n] == longer[n]);
        assert(nodes[path[n] as int].player == others[path[n] as int].player);
    }
}

/// The indices of `path` rise, begin at the root and name nodes.
pub open spec fn is_path(path: Seq<usize>, len: int) -> bool {
    &&& path.len() >= 1
    &&& path[0] == 0
    &&& forall|j: int| 0 <= j < path.len() ==> (#[trigger] path[j]) < len
    &&& forall|j: int| 0 <= j < path.len() - 1 ==> (#[trigger] path[j]) < path[j + 1]
}

/// The simulation that Black has won, or lost, is a win for `player`.
pub open spec fn wins_for(black_wins: bool, player: Stone) -> bool {
    (black_wins && player == Stone::Black) || (!black_wins && player == Stone::White)
}

/// One of the first `c` entries of `children` is the move `vertex` to the
/// node `x`.
pub open spec fn listed_upto(children: Seq<(Vertex, usize)>, vertex: Vertex, x: int, c: int) -> bool {
    exists|d: int| 0 <= d < c && d < children.len() && is_entry(#[trigger] children[d], vertex, x)
}

/// The entry `e` is the move `vertex` to the node `x`.
pub open spec fn is_entry(e: (Vertex, usize), vertex: Vertex, x: int) -> bool {
    e.0 == vertex && e.1 == x
}

/// One of the first `j` nodes of `path` is `i`.
pub open spec fn passed_upto(path: Seq<usize>, i: int, j: int) -> bool {
    exists|t: int| 0 <= t < j && t < path.len() && path[t] == i
}

/// The node `x` is listed among the first `c` children of its parent, and
/// its player made its move first in the simulation.
pub open spec fn credited_upto(nodes: Seq<Node>, amaf: Seq<Stone>, x: int, c: int) -> bool {
    &&& 0 <= nodes[x].parent < nodes.len()
    &&& listed_upto(nodes[nodes[x].parent as int].children@, nodes[x].vertex, x, c)
    &&& 0 <= nodes[x].vertex.0 < 441
    &&& amaf[nodes[x].vertex.0 as int] == nodes[x].player
}

/// The node `x` gets a rave visit for the simulation: it is a child of a
/// node among the first `j` of `path`, and its player made its move first
/// in the simulation.
pub open spec fn credited(nodes: Seq<Node>, path: Seq<usize>, amaf: Seq<Stone>, x: int, j: int) -> bool {
    passed_upto(path, nodes[x].parent as int, j) && credited_upto(nodes, amaf, x, nodes[nodes[x].parent as int].children@.len() as int)
}

/// The node `new` is the node `old` after a simulation has been counted:
/// with a visit if it was passed, a rave visit if it was credited, and
/// the wins that go with them if its player has won.
pub open spec fn counted_once(old: Node, new: Node, passed: bool, credited: bool, black_wins: bool) -> bool {
    &&& same_but_counters(new, old)
    &&& new.num_plays == old.num_plays + (if passed { 1int } else { 0 })
    &&& new.num_wins == old.num_wins + (if passed && wins_for(black_wins, old.player) { 1int } else { 0 })
    &&& new.num_rave_plays == old.num_rave_plays + (if credited { 1int } else { 0 })
    &&& new.num_rave_wins == old.num_rave_wins + (if credited && wins_for(black_wins, old.player) { 1int } else { 0 })
}

/// The nodes of a path before position `j` lie before the node at `j`.
pub proof fn lemma_path_rises(path: Seq<usize>, len: int, j: int)
    requires
        is_path(path, len),
        0 <= j < path.len(),
    ensures
        forall|t: int| 0 <= t < j ==> (#[trigger] path[t]) < path[j],
    decreases j,
{
    if j > 0 {
        lemma_path_rises(path, len, j - 1);
        assert(path[j - 1] < path[j - 1 + 1]);
    }
}

/// The counters in the middle of the update after a simulation, when the
/// nodes from `cur` on are still to be updated: a node before `cur` may
/// have one visit more than the bound, and a child of such a node one
/// rave visit more.
pub open spec fn mid_counted(n: Node, sims: int, i: int, cur: int) -> bool {
    &&& 10 <= n.num_plays <= 10 + sims + 1
    &&& (i >= cur ==> n.num_plays <= 10 + sims)
    &&& n.num_wins <= n.num_plays
    &&& n.num_rave_wins <= n.num_rave_plays <= sims + 1
    &&& (n.parent >= cur ==> n.num_rave_plays <= sims)
}

/// The line of most visited children from the node `i` on, each with its
/// move and its visits.
pub open spec fn principal_variation_from(nodes: Seq<Node>, i: int) -> Seq<(Vertex, u32)>
    decreases nodes.len() - i,
{
    if 0 <= i < nodes.len() && nodes[i].children@.len() > 0 {
        let children = nodes[i].children@;
        let e = children[most_visited_upto(children, nodes, children.len() as int)];
        if i < e.1 < nodes.len() {
            seq![(e.0, nodes[e.1 as int].num_plays)] + principal_variation_from(nodes, e.1 as int)
        } else {
            Seq::empty()
        }
    } else {
        Seq::empty()
    }
}

/// The node `n` is a new child: the position after `player` has moved at
/// `vertex` from the node `parent`, with the prior as its visits.
pub open spec fn fresh_child(n: Node, player: Stone, vertex: int, parent: int) -> bool {
    &&& n.player == player
    &&& n.vertex.0 == vertex
    &&& n.parent == parent
    &&& n.children@.len() == 0
    &&& n.num_plays == 10
    &&& n.num_wins == 5
    &&& n.num_rave_plays == 0
    &&& n.num_rave_wins == 0
}

/// The nodes agree but for their children.
pub open spec fn same_but_children(a: Node, b: Node) -> bool {
    &&& a.player == b.player
    &&& a.vertex == b.vertex
    &&& a.parent == b.parent
    &&& a.num_plays == b.num_plays
    &&& a.num_wins == b.num_wins
    &&& a.num_rave_plays == b.num_rave_plays
    &&& a.num_rave_wins == b.num_rave_wins
}

/// The tree `new` is the tree `old` with the leaf `node` expanded: for
/// every move of `legal` a new child of `node` stands at the end of the
/// tree, in the order of the moves.
pub open spec fn expanded(old: Seq<Node>, new: Seq<Node>, node: int, legal: Seq<int>) -> bool {
    &&& new.len() == old.len() + legal.len()
    &&& forall|i: int| 0 <= i < old.len() && i != node ==> #[trigger] new[i] == old[i]
    &&& same_but_children(new[node], old[node])
    &&& new[node].children@.len() == legal.len()
    &&& forall|c: int| 0 <= c < legal.len() ==> (#[trigger] new[node].children@[c]).0.0 == legal[c] && new[node].children@[c].1 == old.len() + c
    &&& forall|c: int| 0 <= c < legal.len() ==> fresh_child(#[trigger] new[old.len() + c], old[node].player.spec_opponent(), legal[c], node)
}

/// One simulation: the walk down `path` through the tree `old`, whose
/// children are shuffled on the way, which gives `walked`; the expansion
/// of the leaf if it has more than 18 visits, which gives `grown`; the
/// playout with the moves of `starts` from the position at the leaf, which
/// leaves the game `game1`, the marks `marks` and the result `black_wins`;
/// and the count of the result along the path, which gives `new`.
pub open spec fn simulated(
    old: Seq<Node>,
    game0: Position,
    path: Seq<usize>,
    walked: Seq<Node>,
    grown: Seq<Node>,
    starts: Seq<int>,
    marks: Seq<Stone>,
    black_wins: bool,
    new: Seq<Node>,
    game1: Position,
) -> bool {
    let leaf = path.last() as int;
    let steps = path.len() - 1;
    let at_leaf = descent_game(game0, walked, path, steps);
    &&& walked.len() == old.len()
    &&& forall|i: int| 0 <= i < old.len() ==> same_but_order(#[trigger] walked[i], old[i])
    &&& is_path(path, walked.len() as int)
    &&& walked[leaf].children@.len() == 0
    &&& forall|j: int| 0 <= j < steps ==> #[trigger] chosen_at(walked, path, j)
    &&& if walked[leaf].num_plays > 18 {
        expanded(walked, grown, leaf, at_leaf.possible_moves(walked[leaf].player.spec_opponent()))
    } else {
        grown == walked
    }
    &&& playout_outcome(
        playout_begin(at_leaf, walked[leaf].player, descent_marks(Seq::new(441, |v: int| Stone::Empty), walked, path, steps)),
        starts,
        game1,
        marks,
        black_wins,
    )
    &&& new.len() == grown.len()
    &&& forall|i: int|
        0 <= i < new.len() ==> counted_once(grown[i], #[trigger] new[i], passed_upto(path, i, path.len() as int), credited(
            grown,
            path,
            marks,
            i,
            path.len() as int,
        ), black_wins)
}

/// A simulation on the game `game0` leads from the tree `old` to the tree
/// `new` and leaves the game `game1`.
pub open spec fn simulation(old: Seq<Node>, game0: Position, new: Seq<Node>, game1: Position) -> bool {
    exists|path: Seq<usize>, walked: Seq<Node>, grown: Seq<Node>, starts: Seq<int>, marks: Seq<Stone>, black_wins: bool|
        #[trigger] simulated(old, game0, path, walked, grown, starts, marks, black_wins, new, game1)
}

/// After `n` simulations, each on the game `game0`, the tree `first` has
/// become the tree `last`.
pub open spec fn searched(first: Seq<Node>, game0: Position, n: int, last: Seq<Node>) -> bool
    decreases n,
{
    if n <= 0 {
        last == first
    } else {
        exists|mid: Seq<Node>, game1: Position| searched(first, game0, n - 1, mid) && #[trigger] simulation(mid, game0, last, game1)
    }
}

/// The tree `first` is the tree with which a search for a move of
/// `to_play` begins: the root `alone`, which stands for the opponent, with
/// one child for each of the moves `legal`.
pub open spec fn search_begins(alone: Seq<Node>, first: Seq<Node>, to_play: Stone, legal: Seq<int>) -> bool {
    &&& alone.len() == 1
    &&& fresh_child(alone[0], to_play.spec_opponent(), -1, 0)
    &&& expanded(alone, first, 0, legal)
}

/// A search for a move of `to_play` among the moves `legal`, with `n`
/// simulations on the game `game0`, gives the tree `last`.
pub open spec fn search_outcome(to_play: Stone, legal: Seq<int>, game0: Position, n: int, last: Seq<Node>) -> bool {
    exists|alone: Seq<Node>, first: Seq<Node>| #[trigger] search_begins(alone, first, to_play, legal) && searched(first, game0, n, last)
}

/// The search tree: the nodes, the root first and every child behind its
/// parent, and the number of simulations run through it.
pub struct Controller {
    pub nodes: Vec<Node>,
    pub simulations: u32,
}

impl Controller {
    /// The tree is well formed: it has a root, every node lists its
    /// children properly, and the counters are within the bounds of the
    /// simulations run.
    pub open spec fn wf(&self) -> bool {
        &&& self.nodes@.len() >= 1
        &&& self.simulations <= 1073741824
        &&& forall|i: int| 0 <= i < self.nodes@.len() ==> linked(self.nodes@, i) && (#[trigger] self.nodes@[i]).counted(self.simulations as int)
    }

    /// The move of the child of the root with the most visits.
    pub open spec fn robust_move(&self) -> Vertex {
        let children = self.nodes@[0].children@;
        children[most_visited_upto(children, self.nodes@, children.len() as int)].0
    }

    /// A tree with a root for the position before Black's first move.
    pub fn new() -> (r: Controller)
        ensures
            r.wf(),
            r.nodes@.len() == 1,
            r.simulations == 0,
            r.nodes@[0].player == Stone::White,
            r.nodes@[0].children@.len() == 0,
    {
        let mut nodes: Vec<Node> = Vec::new();
        nodes.push(Node::new(Stone::White));
        Controller { nodes: nodes, simulations: 0 }
    }

    /// The root of the tree.
    pub fn root(&self) -> (r: &Node)
        requires
            self.wf(),
        ensures
            *r == self.nodes@[0],
    {
        &self.nodes[0]
    }

    /// The line of play that the search prefers: from the root on the
    /// most visited child of each node, with its move and its visits.
    pub fn principal_variation(&self) -> (pv: Vec<(Vertex, u32)>)
        requires
            self.wf(),
        ensures
            pv@ == principal_variation_from(self.nodes@, 0),
    {
        let mut pv: Vec<(Vertex, u32)> = Vec::new();
        let mut node: usize = 0;
        while self.nodes[node].children.len() > 0
            invariant
                self.wf(),
                node < self.nodes@.len(),
                pv@ + principal_variation_from(self.nodes@, node as int) == principal_variation_from(self.nodes@, 0),
            decreases self.nodes@.len() - node,
        {
            proof {
                assert(linked(self.nodes@, node as int));
                assert forall|c: int| 0 <= c < self.nodes@[node as int].children@.len() implies (#[trigger] self.nodes@[node as int].children@[c]).1 < self.nodes@.len() by {
                    assert(child_ok(self.nodes@, node as int, self.nodes@[node as int].children@[c]));
                }
            }
            let (vertex, best) = self.nodes[node].best_move(&self.nodes);
            proof {
                assert(child_ok(self.nodes@, node as int, (vertex, best)));
                let rest = principal_variation_from(self.nodes@, best as int);
                let entry = (vertex, self.nodes@[best as int].num_plays);
                assert(principal_variation_from(self.nodes@, node as int) == seq![entry] + rest);
                assert(pv@.push(entry) + rest =~= pv@ + (seq![entry] + rest));
            }
            pv.push((vertex, self.nodes[best].num_plays));
            node = best;
        }
        proof {
            assert(principal_variation_from(self.nodes@, node as int) =~= Seq::empty());
            assert(pv@ + Seq::<(Vertex, u32)>::empty() =~= pv@);
        }
        pv
    }

    /// Gives the leaf `node` one child for every move that the opponent
    /// of its player may play in the position of `game`.
    #[verifier::rlimit(50)]
    pub fn expand_node(&mut self, node: usize, game: &GoGame)
        requires
            old(self).wf(),
            node < old(self).nodes@.len(),
            old(self).nodes@[node as int].children@.len() == 0,
            game.wf(),
        ensures
            final(self).wf(),
            final(self).simulations == old(self).simulations,
            expanded(old(self).nodes@, final(self).nodes@, node as int, game@.possible_moves(old(self).nodes@[node as int].player.spec_opponent())),
            moves_of(final(self).nodes@[node as int].children@) == game@.possible_moves(old(self).nodes@[node as int].player.spec_opponent()),
    {
        let opponent = self.nodes[node].player.opponent();
        let moves = game.possible_moves(opponent);
        let ghost legal = game@.possible_moves(opponent);
        proof {
            game.lemma_wf_valid();
            lemma_possible_moves(game@, opponent, game@.empties.len() as int);
            assert forall|j: int| 0 <= j < legal.len() implies 0 <= #[trigger] legal[j] < 441 by {
                assert(game@.empties.contains(legal[j]));
            }
            assert(moves_of(self.nodes@[node as int].children@) =~= legal.subrange(0, 0));
        }
        let mut k: usize = 0;
        while k < moves.len()
            invariant
                0 <= k <= moves@.len(),
                indices(moves@) == legal,
                forall|j: int| 0 <= j < legal.len() ==> 0 <= #[trigger] legal[j] < 441,
                self.wf(),
                node < old(self).nodes@.len(),
                opponent == old(self).nodes@[node as int].player.spec_opponent(),
                self.simulations == old(self).simulations,
                self.nodes@.len() == old(self).nodes@.len() + k,
                self.nodes@[node as int].children@.len() == k,
                forall|c: int| 0 <= c < k ==> (#[trigger] self.nodes@[node as int].children@[c]).1 == old(self).nodes@.len() + c,
                forall|c: int|
                    0 <= c < k ==> fresh_child(#[trigger] self.nodes@[old(self).nodes@.len() + c], opponent, legal[c], node as int),
                forall|i: int| 0 <= i < old(self).nodes@.len() && i != node ==> #[trigger] self.nodes@[i] == old(self).nodes@[i],
                self.nodes@[node as int].player == old(self).nodes@[node as int].player,
                self.nodes@[node as int].vertex == old(self).nodes@[node as int].vertex,
                self.nodes@[node as int].parent == old(self).nodes@[node as int].parent,
                self.nodes@[node as int].num_plays == old(self).nodes@[node as int].num_plays,
                self.nodes@[node as int].num_wins == old(self).nodes@[node as int].num_wins,
                self.nodes@[node as int].num_rave_plays == old(self).nodes@[node as int].num_rave_plays,
                self.nodes@[node as int].num_rave_wins == old(self).nodes@[node as int].num_rave_wins,
                moves_of(self.nodes@[node as int].children@) == legal.subrange(0, k as int),
            decreases moves@.len() - k,
        {
            let v = moves[k];
            let index = self.nodes.len();
            let ghost before = self.nodes@;
            assert(legal[k as int] == v.0);
            let child = Node {
                player: opponent,
                vertex: v,
                parent: node,
                children: Vec::new(),
                num_plays: NODE_PRIOR,
                num_wins: NODE_PRIOR / 2,
                num_rave_plays: 0,
                num_rave_wins: 0,
            };
            self.nodes.push(child);
            let ghost pushed = self.nodes@;
            self.nodes[node].children.push((v, index));
            proof {
                let after = self.nodes@;
                let sims = self.simulations as int;
                assert(after.len() == before.len() + 1);
                assert forall|i: int| 0 <= i < after.len() implies linked(after, i) && (#[trigger] after[i]).counted(sims) by {
                    if i == index {
                        assert(after[i] == pushed[i]);
                    } else if i == node {
                        assert(linked(before, i));
                        let ch = after[i].children@;
                        let ch0 = before[i].children@;
                        assert(ch =~= ch0.push((v, index)));
                        assert forall|c: int| 0 <= c < ch.len() implies child_ok(after, i, #[trigger] ch[c]) by {
                            if c < ch0.len() {
                                assert(child_ok(before, i, ch0[c]));
                                assert(after[ch0[c].1 as int] == before[ch0[c].1 as int]);
                            }
                        }
                        assert forall|a: int, b: int| 0 <= a < ch.len() && 0 <= b < ch.len() && a != b implies ch[a] != ch[b] by {
                            if a < ch0.len() {
                                assert(child_ok(before, i, ch0[a]));
                            }
                            if b < ch0.len() {
                                assert(child_ok(before, i, ch0[b]));
                            }
                        }
                    } else {
                        assert(after[i] == before[i]);
                        assert(linked(before, i));
                        let ch = after[i].children@;
                        assert forall|c: int| 0 <= c < ch.len() implies child_ok(after, i, #[trigger] ch[c]) by {
                            assert(child_ok(before, i, ch[c]));
                            if ch[c].1 != node {
                                assert(after[ch[c].1 as int] == before[ch[c].1 as int]);
                            }
                        }
                    }
                }
                assert(moves_of(after[node as int].children@) =~= legal.subrange(0, k + 1));
                assert forall|c: int| 0 <= c < k + 1 implies fresh_child(#[trigger] after[old(self).nodes@.len() + c], opponent, legal[c], node as int) by {
                    if c < k {
                        assert(after[old(self).nodes@.len() + c] == before[old(self).nodes@.len() + c]);
                    } else {
                        assert(after[index as int] == pushed[index as int]);
                    }
                }
            }
            k += 1;
        }
        proof {
            assert(legal.subrange(0, moves@.len() as int) =~= legal);
            let children = self.nodes@[node as int].children@;
            assert forall|c: int| 0 <= c < legal.len() implies (#[trigger] children[c]).0.0 == legal[c] && children[c].1 == old(self).nodes@.len() + c by {
                assert(moves_of(children)[c] == legal[c]);
            }
        }
    }
}

impl Controller {
    /// Walks from the root to a leaf: at every node the children are
    /// shuffled, the most urgent child is chosen and its move is played on
    /// `game` and marked in `amaf_color_map`. Gives the nodes passed.
    #[verifier::rlimit(50)]
    pub fn descend(&mut self, game: &mut GoGame, rng: &mut rand::StdRng, amaf_color_map: &mut Vec<Stone>) -> (path: Vec<usize>)
        requires
            old(self).wf(),
            old(game).wf(),
            old(amaf_color_map)@.len() == 441,
        ensures
            final(self).wf(),
            final(self).simulations == old(self).simulations,
            final(self).nodes@.len() == old(self).nodes@.len(),
            forall|i: int| 0 <= i < old(self).nodes@.len() ==> same_but_order(#[trigger] final(self).nodes@[i], old(self).nodes@[i]),
            is_path(path@, final(self).nodes@.len() as int),
            final(self).nodes@[path@.last() as int].children@.len() == 0,
            forall|j: int| 0 <= j < path@.len() - 1 ==> #[trigger] chosen_at(final(self).nodes@, path@, j),
            final(game).wf(),
            final(game)@.size == old(game)@.size,
            final(game)@ == descent_game(old(game)@, final(self).nodes@, path@, path@.len() - 1),
            final(amaf_color_map)@.len() == 441,
            final(amaf_color_map)@ == descent_marks(old(amaf_color_map)@, final(self).nodes@, path@, path@.len() - 1),
    {
        let mut path: Vec<usize> = Vec::new();
        let mut node: usize = 0;
        path.push(node);
        while self.nodes[node].children.len() > 0
            invariant
                self.wf(),
                self.simulations == old(self).simulations,
                self.nodes@.len() == old(self).nodes@.len(),
                forall|i: int| 0 <= i < old(self).nodes@.len() ==> same_but_order(#[trigger] self.nodes@[i], old(self).nodes@[i]),
                is_path(path@, self.nodes@.len() as int),
                path@.last() == node,
                node < self.nodes@.len(),
                forall|j: int| 0 <= j < path@.len() - 1 ==> #[trigger] chosen_at(self.nodes@, path@, j),
                game.wf(),
                game@.size == old(game)@.size,
                game@ == descent_game(old(game)@, self.nodes@, path@, path@.len() - 1),
                amaf_color_map@.len() == 441,
                amaf_color_map@ == descent_marks(old(amaf_color_map)@, self.nodes@, path@, path@.len() - 1),
            decreases self.nodes@.len() - node,
        {
            let ghost before = self.nodes@;
            let ghost walked = path@;
            // Shuffle to break ties.
            shuffle_moves(rng, &mut self.nodes[node].children);
            proof {
                let after = self.nodes@;
                let sims = self.simulations as int;
                lemma_permuted(before[node as int].children@, after[node as int].children@);
                assert forall|i: int| 0 <= i < after.len() implies linked(after, i) && (#[trigger] after[i]).counted(sims) by {
                    assert(linked(before, i));
                    let ch = after[i].children@;
                    assert forall|c: int| 0 <= c < ch.len() implies child_ok(after, i, #[trigger] ch[c]) by {
                        if i == node {
                            assert(before[i].children@.contains(ch[c]));
                        } else {
                            assert(after[i] == before[i]);
                        }
                        assert(child_ok(before, i, ch[c]));
                    }
                }
                lemma_path_rises(walked, after.len() as int, walked.len() - 1);
                assert forall|j: int| 0 <= j < walked.len() - 1 implies #[trigger] chosen_at(after, walked, j) by {
                    assert(chosen_at(before, walked, j));
                    let p = walked[j] as int;
                    let c = walked[j + 1] as int;
                    assert(walked[j] < walked[j + 1]);
                    assert(p != node) by {
                        assert(walked[j] < walked[walked.len() - 1]);
                    }
                    assert(after[p] == before[p]);
                    assert forall|d: int| 0 <= d < after[p].children@.len() implies !after[(#[trigger] after[p].children@[d]).1 as int].more_urgent_than(
                        &after[c],
                    ) by {
                        let x = before[p].children@[d].1 as int;
                        assert(linked(before, p));
                        assert(child_ok(before, p, before[p].children@[d]));
                        assert(!before[x].more_urgent_than(&before[c]));
                        assert(same_but_order(after[x], old(self).nodes@[x]) && same_but_order(before[x], old(self).nodes@[x]));
                        assert(same_but_order(after[c], old(self).nodes@[c]) && same_but_order(before[c], old(self).nodes@[c]));
                    }
                }
                assert forall|i: int| 0 <= i < before.len() implies (#[trigger] before[i]).player == after[i].player && before[i].vertex == after[i].vertex by {
                    if i != node {
                        assert(after[i] == before[i]);
                    }
                }
                lemma_descent_frame(old(game)@, old(amaf_color_map)@, before, walked, after, walked, walked.len() - 1);
            }
            let (vertex, best) = self.nodes[node].best_child(&self.nodes);
            proof {
                let nodes = self.nodes@;
                let children = nodes[node as int].children@;
                assert(child_ok(nodes, node as int, (vertex, best)));
                lemma_play_frame(game@, nodes[best as int].player, vertex.0 as int);
                assert forall|c: int| 0 <= c < children.len() implies (#[trigger] children[c]).1 < nodes.len() by {
                    assert(child_ok(nodes, node as int, children[c]));
                }
                lemma_most_urgent(children, nodes, children.len() as int);
            }
            let mover = self.nodes[best].player;
            game.play(mover, vertex);
            if amaf_color_map[vertex.as_index()] == Stone::Empty {
                amaf_color_map[vertex.as_index()] = mover;
            }
            node = best;
            path.push(node);
            proof {
                let nodes = self.nodes@;
                let n = walked.len() as int;
                assert(path@ =~= walked.push(best));
                assert(path@.len() - 1 == n);
                lemma_descent_frame(old(game)@, old(amaf_color_map)@, nodes, walked, nodes, path@, n - 1);
                assert(path@[n] == best);
                assert(nodes[best as int].vertex == vertex);
                assert forall|j: int| 0 <= j < path@.len() - 1 implies #[trigger] chosen_at(nodes, path@, j) by {
                    if j < n - 1 {
                        assert(chosen_at(nodes, walked, j));
                        assert(path@[j] == walked[j] && path@[j + 1] == walked[j + 1]);
                    } else {
                        assert(path@[j] == walked[n - 1]);
                        assert(path@[j + 1] == best);
                        let children = nodes[walked[n - 1] as int].children@;
                        let d = most_urgent_upto(children, nodes, children.len() as int);
                        assert(children[d].1 == best);
                    }
                }
                assert forall|j: int| 0 <= j < path@.len() implies (#[trigger] path@[j]) < nodes.len() by {
                    if j < n {
                        assert(path@[j] == walked[j]);
                    }
                }
                assert forall|j: int| 0 <= j < path@.len() - 1 implies (#[trigger] path@[j]) < path@[j + 1] by {
                    if j < n - 1 {
                        assert(walked[j] < walked[j + 1]);
                        assert(path@[j] == walked[j] && path@[j + 1] == walked[j + 1]);
                    }
                }
            }
        }
        path
    }

    // Counts the simulation for the children of the node `node`: a child
    // whose move its player made first in the simulation gets a rave visit,
    // and a rave win if the player of `node` has lost, which is when its
    // own player has won.
    #[verifier::rlimit(50)]
    fn credit_children(&mut self, node: usize, black_wins: bool, amaf_color_map: &Vec<Stone>, Ghost(sims): Ghost<int>, Ghost(next): Ghost<int>)
        requires
            node < old(self).nodes@.len(),
            node < next,
            0 <= sims < 1073741824,
            amaf_color_map@.len() == 441,
            forall|i: int| 0 <= i < old(self).nodes@.len() ==> linked(old(self).nodes@, i) && mid_counted(#[trigger] old(self).nodes@[i], sims, i, node as int),
        ensures
            final(self).simulations == old(self).simulations,
            final(self).nodes@.len() == old(self).nodes@.len(),
            forall|i: int| 0 <= i < final(self).nodes@.len() ==> linked(final(self).nodes@, i) && mid_counted(#[trigger] final(self).nodes@[i], sims, i, next),
            forall|i: int|
                0 <= i < final(self).nodes@.len() ==> counted_once(
                    old(self).nodes@[i],
                    #[trigger] final(self).nodes@[i],
                    false,
                    old(self).nodes@[i].parent == node && credited_upto(
                        old(self).nodes@,
                        amaf_color_map@,
                        i,
                        old(self).nodes@[node as int].children@.len() as int,
                    ),
                    black_wins,
                ),
    {
        let num_children = self.nodes[node].children.len();
        let parent = self.nodes[node].player;
        let parent_won = (black_wins && parent == Stone::Black) || (!black_wins && parent == Stone::White);
        let ghost start = self.nodes@;
        let ghost children = self.nodes@[node as int].children@;
        proof {
            assert(linked(self.nodes@, node as int));
            assert forall|d: int| 0 <= d < num_children implies self.nodes@[(#[trigger] self.nodes@[node as int].children@[d]).1 as int].num_rave_plays <= sims by {
                let e = self.nodes@[node as int].children@[d];
                assert(child_ok(self.nodes@, node as int, e));
                assert(mid_counted(self.nodes@[e.1 as int], sims, e.1 as int, node as int));
            }
        }
        let mut c: usize = 0;
        while c < num_children
            invariant
                0 <= c <= num_children,
                node < self.nodes@.len(),
                node < next,
                0 <= sims < 1073741824,
                amaf_color_map@.len() == 441,
                start == old(self).nodes@,
                children == start[node as int].children@,
                num_children == children.len(),
                parent_won == wins_for(black_wins, start[node as int].player),
                self.simulations == old(self).simulations,
                self.nodes@.len() == start.len(),
                forall|i: int| 0 <= i < start.len() ==> linked(start, i),
                forall|i: int| 0 <= i < self.nodes@.len() ==> linked(self.nodes@, i) && mid_counted(#[trigger] self.nodes@[i], sims, i, next),
                forall|d: int| c <= d < num_children ==> self.nodes@[(#[trigger] children[d]).1 as int].num_rave_plays <= sims,
                forall|i: int|
                    0 <= i < self.nodes@.len() ==> counted_once(
                        start[i],
                        #[trigger] self.nodes@[i],
                        false,
                        start[i].parent == node && credited_upto(start, amaf_color_map@, i, c as int),
                        black_wins,
                    ),
            decreases num_children - c,
        {
            let ghost before = self.nodes@;
            let (vertex, index) = self.nodes[node].children[c];
            proof {
                assert(linked(before, node as int));
                assert(same_but_counters(before[node as int], start[node as int]));
                assert(child_ok(before, node as int, before[node as int].children@[c as int]));
                assert(same_but_counters(before[index as int], start[index as int]));
            }
            let player = self.nodes[index].player;
            if amaf_color_map[vertex.as_index()] == player {
                // Children are from the other perspective.
                self.nodes[index].num_rave_plays += 1;
                if !parent_won {
                    self.nodes[index].num_rave_wins += 1;
                }
            }
            proof {
                let after = self.nodes@;
                assert forall|i: int| 0 <= i < after.len() implies linked(after, i) && mid_counted(#[trigger] after[i], sims, i, next) by {
                    assert(linked(before, i));
                    if i != index {
                        assert(after[i] == before[i]);
                    }
                    let ch = after[i].children@;
                    assert forall|e: int| 0 <= e < ch.len() implies child_ok(after, i, #[trigger] ch[e]) by {
                        assert(child_ok(before, i, before[i].children@[e]));
                        if ch[e].1 != index {
                            assert(after[ch[e].1 as int] == before[ch[e].1 as int]);
                        }
                    }
                }
                assert forall|d: int| c < d < num_children implies after[(#[trigger] children[d]).1 as int].num_rave_plays <= sims by {
                    assert(child_ok(start, node as int, children[d]));
                    assert(child_ok(start, node as int, children[c as int]));
                    assert(children[d] != children[c as int]);
                    assert(after[children[d].1 as int] == before[children[d].1 as int]);
                }
                assert forall|i: int| 0 <= i < after.len() implies counted_once(
                    start[i],
                    #[trigger] after[i],
                    false,
                    start[i].parent == node && credited_upto(start, amaf_color_map@, i, c + 1),
                    black_wins,
                ) by {
                    assert(counted_once(start[i], before[i], false, start[i].parent == node && credited_upto(start, amaf_color_map@, i, c as int), black_wins));
                    let vx = start[i].vertex;
                    assert(children[c as int] == (vertex, index));
                    assert(child_ok(start, node as int, children[c as int]));
                    if i == index {
                        assert(is_entry(children[c as int], vx, i));
                        assert(listed_upto(children, vx, i, c + 1));
                        if listed_upto(children, vx, i, c as int) {
                            let d = choose|d: int| 0 <= d < c && d < children.len() && is_entry(#[trigger] children[d], vx, i);
                            assert(children[d] == children[c as int]);
                        }
                    } else {
                        assert(after[i] == before[i]);
                        if start[i].parent == node {
                            if listed_upto(children, vx, i, c + 1) {
                                let d = choose|d: int| 0 <= d < c + 1 && d < children.len() && is_entry(#[trigger] children[d], vx, i);
                                assert(d != c);
                                assert(listed_upto(children, vx, i, c as int));
                            }
                            if listed_upto(children, vx, i, c as int) {
                                let d = choose|d: int| 0 <= d < c && d < children.len() && is_entry(#[trigger] children[d], vx, i);
                                assert(listed_upto(children, vx, i, c + 1));
                            }
                        }
                    }
                }
            }
            c += 1;
        }
    }

    /// Counts a simulation along the nodes of `path`: each gets a visit,
    /// and a win if its player has won; and each of their children whose
    /// move its player made first in the simulation gets a rave visit,
    /// and a rave win if the player of the node passed has lost, which is
    /// when the player of the child has won.
    #[verifier::rlimit(50)]
    pub fn propagate(&mut self, path: &Vec<usize>, black_wins: bool, amaf_color_map: &Vec<Stone>)
        requires
            old(self).wf(),
            old(self).simulations < 1073741824,
            is_path(path@, old(self).nodes@.len() as int),
            amaf_color_map@.len() == 441,
        ensures
            final(self).wf(),
            final(self).simulations == old(self).simulations + 1,
            final(self).nodes@.len() == old(self).nodes@.len(),
            forall|i: int|
                0 <= i < final(self).nodes@.len() ==> counted_once(
                    old(self).nodes@[i],
                    #[trigger] final(self).nodes@[i],
                    passed_upto(path@, i, path@.len() as int),
                    credited(old(self).nodes@, path@, amaf_color_map@, i, path@.len() as int),
                    black_wins,
                ),
            final(self).nodes@[0].num_plays == old(self).nodes@[0].num_plays + 1,
    {
        let ghost sims = self.simulations as int;
        let ghost start = self.nodes@;
        let mut j: usize = 0;
        while j < path.len()
            invariant
                0 <= j <= path@.len(),
                sims == old(self).simulations,
                0 <= sims < 1073741824,
                start == old(self).nodes@,
                self.simulations == old(self).simulations,
                is_path(path@, self.nodes@.len() as int),
                amaf_color_map@.len() == 441,
                self.nodes@.len() == start.len(),
                forall|i: int| 0 <= i < start.len() ==> linked(start, i),
                forall|i: int|
                    0 <= i < self.nodes@.len() ==> linked(self.nodes@, i) && mid_counted(
                        #[trigger] self.nodes@[i],
                        sims,
                        i,
                        if j < path@.len() { path@[j as int] as int } else { self.nodes@.len() as int },
                    ),
                forall|i: int|
                    0 <= i < self.nodes@.len() ==> counted_once(
                        start[i],
                        #[trigger] self.nodes@[i],
                        passed_upto(path@, i, j as int),
                        credited(start, path@, amaf_color_map@, i, j as int),
                        black_wins,
                    ),
            decreases path@.len() - j,
        {
            let node = path[j];
            let ghost next = if j + 1 < path@.len() { path@[j + 1] as int } else { self.nodes@.len() as int };
            let ghost entered = self.nodes@;
            proof {
                assert(path@[j as int] < self.nodes@.len());
                if j + 1 < path@.len() {
                    assert(path@[j as int] < path@[j + 1]);
                }
                lemma_path_rises(path@, self.nodes@.len() as int, j as int);
            }
            self.credit_children(node, black_wins, amaf_color_map, Ghost(sims), Ghost(next));
            let ghost before = self.nodes@;
            let player = self.nodes[node].player;
            let won = (black_wins && player == Stone::Black) || (!black_wins && player == Stone::White);
            proof {
                assert(counted_once(entered[node as int], before[node as int], false, entered[node as int].parent == node && credited_upto(
                    entered,
                    amaf_color_map@,
                    node as int,
                    entered[node as int].children@.len() as int,
                ), black_wins));
                assert(mid_counted(entered[node as int], sims, node as int, node as int));
            }
            self.nodes[node].num_plays += 1;
            if won {
                self.nodes[node].num_wins += 1;
            }
            proof {
                let after = self.nodes@;
                assert forall|i: int| 0 <= i < after.len() implies linked(after, i) && mid_counted(#[trigger] after[i], sims, i, next) by {
                    assert(linked(before, i));
                    if i != node {
                        assert(after[i] == before[i]);
                    }
                    let ch = after[i].children@;
                    assert forall|e: int| 0 <= e < ch.len() implies child_ok(after, i, #[trigger] ch[e]) by {
                        assert(child_ok(before, i, before[i].children@[e]));
                        if ch[e].1 != node {
                            assert(after[ch[e].1 as int] == before[ch[e].1 as int]);
                        }
                    }
                }
                assert forall|i: int| 0 <= i < after.len() implies counted_once(
                    start[i],
                    #[trigger] after[i],
                    passed_upto(path@, i, j + 1),
                    credited(start, path@, amaf_color_map@, i, j + 1),
                    black_wins,
                ) by {
                    assert(counted_once(start[i], entered[i], passed_upto(path@, i, j as int), credited(start, path@, amaf_color_map@, i, j as int), black_wins));
                    assert(counted_once(entered[i], before[i], false, entered[i].parent == node && credited_upto(
                        entered,
                        amaf_color_map@,
                        i,
                        entered[node as int].children@.len() as int,
                    ), black_wins));
                    assert(same_but_counters(entered[node as int], start[node as int]));
                    assert(same_but_counters(entered[i], start[i]));
                    // whether the node has been passed
                    if i == node {
                        assert(path@[j as int] == i);
                        assert(passed_upto(path@, i, j + 1));
                        assert(!passed_upto(path@, i, j as int));
                    } else {
                        assert(after[i] == before[i]);
                        if passed_upto(path@, i, j + 1) {
                            let t = choose|t: int| 0 <= t < j + 1 && t < path@.len() && path@[t] == i;
                            assert(t != j);
                            assert(passed_upto(path@, i, j as int));
                        }
                        if passed_upto(path@, i, j as int) {
                            let t = choose|t: int| 0 <= t < j && t < path@.len() && path@[t] == i;
                            assert(passed_upto(path@, i, j + 1));
                        }
                    }
                    // whether the node has been credited
                    let p = start[i].parent as int;
                    if p == node {
                        assert(path@[j as int] == p);
                        assert(passed_upto(path@, p, j + 1));
                        assert(!passed_upto(path@, p, j as int));
                        assert(credited_upto(entered, amaf_color_map@, i, entered[node as int].children@.len() as int) == credited_upto(
                            start,
                            amaf_color_map@,
                            i,
                            start[p].children@.len() as int,
                        ));
                    } else {
                        if passed_upto(path@, p, j + 1) {
                            let t = choose|t: int| 0 <= t < j + 1 && t < path@.len() && path@[t] == p;
                            assert(t != j);
                            assert(passed_upto(path@, p, j as int));
                        }
                        if passed_upto(path@, p, j as int) {
                            let t = choose|t: int| 0 <= t < j && t < path@.len() && path@[t] == p;
                            assert(passed_upto(path@, p, j + 1));
                        }
                    }
                }
            }
            j += 1;
        }
        proof {
            assert forall|i: int| 0 <= i < self.nodes@.len() implies (#[trigger] self.nodes@[i]).counted(sims + 1) by {
                assert(mid_counted(self.nodes@[i], sims, i, self.nodes@.len() as int));
            }
            assert(path@[0] == 0);
            assert(passed_upto(path@, 0, path@.len() as int));
        }
        self.simulations += 1;
    }

    /// Runs one simulation on `game`, which holds the position of the
    /// root: walks down to a leaf, gives the leaf its children if it has
    /// been visited often enough, plays the game out at random and counts
    /// the result along the way back.
    #[verifier::rlimit(50)]
    pub fn run_rollout(&mut self, game: &mut GoGame, rng: &mut rand::StdRng)
        requires
            old(self).wf(),
            old(self).simulations < 1073741824,
            old(game).wf(),
        ensures
            final(self).wf(),
            final(self).simulations == old(self).simulations + 1,
            final(self).nodes@.len() >= old(self).nodes@.len(),
            final(self).nodes@[0].num_plays == old(self).nodes@[0].num_plays + 1,
            old(self).nodes@[0].children@.len() > 0 ==> final(self).nodes@[0].children@.to_multiset() == old(self).nodes@[0].children@.to_multiset(),
            final(game).wf(),
            final(game)@.size == old(game)@.size,
            simulation(old(self).nodes@, old(game)@, final(self).nodes@, final(game)@),
    {
        // Map to store who played at which vertex first.
        let mut amaf_color_map: Vec<Stone> = vec![Stone::Empty; 441];
        let ghost no_marks = amaf_color_map@;
        proof {
            assert(no_marks =~= Seq::new(441, |v: int| Stone::Empty));
        }
        // Run the simulation down the tree until we reach a leaf node.
        let path = self.descend(game, rng, &mut amaf_color_map);
        let leaf = path[path.len() - 1];
        let ghost walked = self.nodes@;
        let ghost at_leaf = game@;
        let ghost leaf_marks = amaf_color_map@;
        proof {
            assert(path@[path@.len() - 1] < self.nodes@.len());
            lemma_permuted(old(self).nodes@[0].children@, walked[0].children@);
            assert(same_but_order(walked[0], old(self).nodes@[0]));
        }
        // Expand nodes with no children that are above the threshold.
        if self.nodes[leaf].num_plays > EXPANSION_THRESHOLD {
            self.expand_node(leaf, game);
        }
        let ghost grown = self.nodes@;
        proof {
            assert(is_path(path@, self.nodes@.len() as int));
            if old(self).nodes@[0].children@.len() > 0 {
                assert(leaf != 0);
                assert(self.nodes@[0] == walked[0]);
            }
            assert(self.nodes@[0].num_plays == old(self).nodes@[0].num_plays);
            assert(linked(self.nodes@, leaf as int));
        }
        // Run a random rollout till the end of the game.
        let leaf_player = self.nodes[leaf].player;
        let black_wins = black_wins(game, leaf_player, rng, &mut amaf_color_map);
        let ghost starts = choose|starts: Seq<int>|
            playout_outcome(playout_begin(at_leaf, leaf_player, leaf_marks), starts, game@, amaf_color_map@, black_wins);
        // Propagate the new value up the tree.
        self.propagate(&path, black_wins, &amaf_color_map);
        proof {
            assert(simulated(old(self).nodes@, old(game)@, path@, walked, grown, starts, amaf_color_map@, black_wins, self.nodes@, game@));
        }
    }

    /// Searches with `num_rollouts` simulations for the move of the side
    /// to move in the position of `game`, which is left as it is: the move
    /// with the most visits, or the pass if there is no legal move.
    #[verifier::rlimit(50)]
    pub fn gen_move(&mut self, game: &GoGame, num_rollouts: u32, rng: &mut rand::StdRng) -> (v: Vertex)
        requires
            game.wf(),
            game@.to_play.is_color(),
            num_rollouts <= 1073741824,
        ensures
            game@.possible_moves(game@.to_play).len() == 0 ==> v.0 == -1 && *final(self) == *old(self),
            game@.possible_moves(game@.to_play).len() > 0 ==> {
                &&& game@.possible_moves(game@.to_play).contains(v.0 as int)
                &&& game@.can_play(game@.to_play, v.0 as int)
                &&& final(self).wf()
                &&& final(self).simulations == num_rollouts
                &&& final(self).nodes@[0].num_plays == 10 + num_rollouts
                &&& v == final(self).robust_move()
                &&& search_outcome(
                    game@.to_play,
                    game@.possible_moves(game@.to_play),
                    Position::initial(game@.size).replayed(game@.history),
                    num_rollouts as int,
                    final(self).nodes@,
                )
            },
    {
        let mut rollout_game = game.clone();
        let to_play = game.side_to_move();
        let ghost legal = game@.possible_moves(to_play);
        if rollout_game.possible_moves(to_play).len() == 0 {
            return Vertex::pass();
        }
        let mut nodes: Vec<Node> = Vec::new();
        nodes.push(Node::new(to_play.opponent()));
        self.nodes = nodes;
        self.simulations = 0;
        let ghost alone = self.nodes@;
        self.expand_node(0, &rollout_game);
        let ghost first = self.nodes@;
        let ghost root_children = self.nodes@[0].children@;
        let history = game.moves();
        let ghost game0 = Position::initial(game@.size).replayed(game@.history);
        proof {
            assert(search_begins(alone, first, to_play, legal));
            assert(history@.len() == game@.history.len());
            assert(indices(history@).subrange(0, history@.len() as int) =~= game@.history);
        }
        let mut i: u32 = 0;
        while i < num_rollouts
            invariant
                0 <= i <= num_rollouts <= 1073741824,
                self.wf(),
                self.simulations == i,
                self.nodes@[0].num_plays == 10 + i,
                self.nodes@[0].children@.len() > 0,
                self.nodes@[0].children@.to_multiset() == root_children.to_multiset(),
                rollout_game.wf(),
                rollout_game@.size == game@.size,
                indices(history@).subrange(0, history@.len() as int) == game@.history,
                game0 == Position::initial(game@.size).replayed(game@.history),
                searched(first, game0, i as int, self.nodes@),
            decreases num_rollouts - i,
        {
            rollout_game.replay(&history, history.len());
            let ghost before = self.nodes@[0].children@;
            let ghost mid = self.nodes@;
            self.run_rollout(&mut rollout_game, rng);
            proof {
                lemma_permuted(before, self.nodes@[0].children@);
                assert(simulation(mid, game0, self.nodes@, rollout_game@));
            }
            i += 1;
        }
        proof {
            assert(linked(self.nodes@, 0));
            assert forall|c: int| 0 <= c < self.nodes@[0].children@.len() implies (#[trigger] self.nodes@[0].children@[c]).1 < self.nodes@.len() by {
                assert(child_ok(self.nodes@, 0, self.nodes@[0].children@[c]));
            }
        }
        let (best_v, _best) = self.nodes[0].best_move(&self.nodes);
        proof {
            lemma_permuted(root_children, self.nodes@[0].children@);
            let e = (best_v, _best);
            assert(root_children.contains(e));
            let c = choose|c: int| 0 <= c < root_children.len() && root_children[c] == e;
            assert(moves_of(root_children)[c] == best_v.0);
            assert(legal.contains(best_v.0 as int));
            lemma_possible_moves(game@, to_play, game@.empties.len() as int);
        }
        best_v
    }
}

} // verus!
