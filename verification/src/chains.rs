//! Facts about the chains of stones and how joining and capturing change
//! them.

use vstd::prelude::*;
use vstd::set_lib::{lemma_int_range, lemma_len_subset, set_int_range};
use crate::stone::Stone;
use crate::string::StringView;
use crate::position::{Position, rotate};
use crate::coherence::{links_ok, link_ok, chain_linked, sizes_ok, structure_ok, wrap_next};

verus! {

/// A chain holds no more stones than the board has cells.
pub proof fn lemma_chain_length(c: Seq<int>)
    requires
        c.no_duplicates(),
        forall|i: int| 0 <= i < c.len() ==> 0 <= #[trigger] c[i] < 441,
    ensures
        c.len() <= 441,
{
    c.unique_seq_to_set();
    lemma_int_range(0, 441);
    assert(c.to_set().subset_of(set_int_range(0, 441))) by {
        assert forall|x: int| c.to_set().contains(x) implies set_int_range(0, 441).contains(x) by {
            let i = choose|i: int| 0 <= i < c.len() && c[i] == x;
            assert(0 <= c[i] < 441);
        }
    }
    lemma_len_subset(c.to_set(), set_int_range(0, 441));
}

/// The index in a cyclic sequence of `len` entries that lies `t` behind
/// `start`.
pub open spec fn turned(start: int, t: int, len: int) -> int {
    if start + t < len {
        start + t
    } else {
        start + t - len
    }
}

/// The index in the sequence read from `start` on of what has index `j`.
pub open spec fn unturned(start: int, j: int, len: int) -> int {
    if j >= start {
        j - start
    } else {
        j - start + len
    }
}

/// The entry at `t` of a rotation.
pub proof fn lemma_rotate_at(c: Seq<int>, start: int, t: int)
    requires
        0 <= start < c.len(),
        0 <= t < c.len(),
    ensures
        rotate(c, start).len() == c.len(),
        rotate(c, start)[t] == c[turned(start, t, c.len() as int)],
{
}

/// Where the entry at `j` lies in a rotation.
pub proof fn lemma_rotate_of(c: Seq<int>, start: int, j: int)
    requires
        0 <= start < c.len(),
        0 <= j < c.len(),
    ensures
        rotate(c, start).len() == c.len(),
        c[j] == rotate(c, start)[unturned(start, j, c.len() as int)],
        0 <= unturned(start, j, c.len() as int) < c.len(),
{
}

/// A rotation of a sequence without duplicates has none.
pub proof fn lemma_rotate_distinct(c: Seq<int>, start: int)
    requires
        0 <= start < c.len(),
        c.no_duplicates(),
    ensures
        rotate(c, start).no_duplicates(),
        rotate(c, start).len() == c.len(),
        rotate(c, start)[0] == c[start],
{
    let r = rotate(c, start);
    assert forall|a: int, b: int| 0 <= a < r.len() && 0 <= b < r.len() && a != b implies r[a] != r[b] by {
        lemma_rotate_at(c, start, a);
        lemma_rotate_at(c, start, b);
    }
}

/// The links of a chain read from another start still follow it.
pub proof fn lemma_rotate_links(c: Seq<int>, next: Seq<int>, start: int)
    requires
        0 <= start < c.len(),
        chain_linked(c, next),
    ensures
        chain_linked(rotate(c, start), next),
{
    let r = rotate(c, start);
    let len = c.len() as int;
    assert forall|t: int| 0 <= t < r.len() implies #[trigger] link_ok(r, next, t) by {
        let i = turned(start, t, len);
        lemma_rotate_at(c, start, t);
        assert(link_ok(c, next, i));
        lemma_rotate_at(c, start, wrap_next(t, len));
    }
}

/// The chain `b`, read from its first stone `b[0]` on, inserted behind the
/// head of the chain `a`.
pub open spec fn spliced(a: Seq<int>, b: Seq<int>) -> Seq<int> {
    seq![a[0]] + b.drop_first() + seq![b[0]] + a.drop_first()
}

/// The entries of a spliced chain.
pub proof fn lemma_spliced(a: Seq<int>, b: Seq<int>)
    requires
        a.len() >= 1,
        b.len() >= 1,
    ensures
        spliced(a, b).len() == a.len() + b.len(),
        spliced(a, b)[0] == a[0],
        forall|j: int| 1 <= j < b.len() ==> #[trigger] spliced(a, b)[j] == b[j],
        spliced(a, b)[b.len() as int] == b[0],
        forall|j: int| 1 <= j < a.len() ==> #[trigger] spliced(a, b)[b.len() + j] == a[j],
        forall|j: int| b.len() < j < a.len() + b.len() ==> #[trigger] spliced(a, b)[j] == a[j - b.len()],
{
}

/// Joining the string of `n` to the string with head `s` leaves the
/// strings well formed, when the links of `s` and `n` are exchanged and the
/// head `s` records the stones of both.
#[verifier::rlimit(50)]
pub proof fn lemma_merged_structure(pos: Position, next: Seq<int>, strings: Seq<StringView>, n: int, s: int, both: StringView)
    requires
        pos.board.len() == 441,
        pos.head.len() == 441,
        pos.chains.len() == 441,
        next.len() == 441,
        strings.len() == 441,
        structure_ok(pos, next, strings),
        0 <= n < 441,
        pos.has_stone(n),
        0 <= s < 441,
        pos.has_stone(s),
        pos.head[s] == s,
        pos.board[s] == pos.board[n],
        pos.head[n] != s,
        both.num_stones == strings[s].num_stones + strings[pos.head[n]].num_stones,
        both.color == strings[s].color,
    ensures
        structure_ok(pos.merged(n, s), next.update(s, next[n]).update(n, next[s]), strings.update(s, both)),
        pos.merged(n, s).chains[s].len() == pos.chains[s].len() + pos.chains[pos.head[n]].len(),
        pos.merged(n, s).chains[s].len() <= 441,
{
    let hb = pos.head[n];
    let a = pos.chains[s];
    let b = pos.chains[hb];
    assert(pos.head[hb] == hb && pos.has_stone(hb) && 0 <= hb < 441);
    assert(b.contains(n));
    let start = b.index_of(n);
    assert(0 <= start < b.len() && b[start] == n);
    let r = rotate(b, start);
    lemma_rotate_distinct(b, start);
    assert(chain_linked(b, next));
    assert(chain_linked(a, next));
    lemma_rotate_links(b, next, start);
    let c = spliced(a, r);
    lemma_spliced(a, r);
    let new = pos.merged(n, s);
    let next2 = next.update(s, next[n]).update(n, next[s]);
    let strings2 = strings.update(s, both);
    assert(new.chains[s] == c) by {
        assert(pos.chain_from(n) == r);
        assert(a[0] == s && r[0] == n);
        assert(seq![s] + r.drop_first() + seq![n] + a.drop_first() =~= c);
    }
    assert(new.chains[hb].len() == 0);
    let la = a.len() as int;
    let lb = b.len() as int;
    // every entry of the new chain is a stone of one of the two strings
    assert forall|j: int| 0 <= j < c.len() implies 0 <= #[trigger] c[j] < 441 && new.head[c[j]] == s && new.has_stone(c[j]) && (pos.head[c[j]] == s
        || pos.head[c[j]] == hb) by {
        if j == 0 {
            assert(c[j] == a[0]);
        } else if j < lb {
            assert(c[j] == r[j]);
            lemma_rotate_at(b, start, j);
        } else if j == lb {
            assert(c[j] == r[0]);
        } else {
            assert(c[j] == a[j - lb]);
        }
    }
    assert(c.no_duplicates()) by {
        assert forall|i: int, j: int| 0 <= i < c.len() && 0 <= j < c.len() && i != j implies c[i] != c[j] by {
            // in which chain an entry lies, and where
            let ia = if i == 0 { 0 } else { i - lb };
            let ja = if j == 0 { 0 } else { j - lb };
            let ib = if i == lb { 0 } else { i };
            let jb = if j == lb { 0 } else { j };
            let i_in_a = i == 0 || i > lb;
            let j_in_a = j == 0 || j > lb;
            if i_in_a {
                assert(c[i] == a[ia]);
                assert(pos.head[a[ia]] == s);
            } else {
                assert(c[i] == r[ib]);
                lemma_rotate_at(b, start, ib);
                assert(pos.head[b[turned(start, ib, lb)]] == hb);
            }
            if j_in_a {
                assert(c[j] == a[ja]);
                assert(pos.head[a[ja]] == s);
            } else {
                assert(c[j] == r[jb]);
                lemma_rotate_at(b, start, jb);
                assert(pos.head[b[turned(start, jb, lb)]] == hb);
            }
        }
    }
    lemma_chain_length(c);
    assert(new.valid_strings()) by {
        assert forall|v: int| 0 <= v < 441 && !new.has_stone(v) implies #[trigger] new.head[v] == v by {
            assert(pos.head[v] == v);
        }
        assert forall|v: int| 0 <= v < 441 && !(new.has_stone(v) && new.head[v] == v) implies (#[trigger] new.chains[v]).len() == 0 by {
            if v != hb && v != s {
                assert(pos.chains[v].len() == 0) by {
                    if pos.has_stone(v) && pos.head[v] == v {
                    }
                }
            }
        }
        assert forall|v: int| 0 <= v < 441 && new.has_stone(v) implies {
            let h = #[trigger] new.head[v];
            &&& 0 <= h < 441
            &&& new.head[h] == h
            &&& new.board[h] == new.board[v]
            &&& new.chains[h].contains(v)
        } by {
            let h0 = pos.head[v];
            assert(pos.head[h0] == h0 && pos.board[h0] == pos.board[v] && pos.chains[h0].contains(v));
            if h0 == hb {
                let j = b.index_of(v);
                assert(0 <= j < lb && b[j] == v);
                let t = unturned(start, j, lb);
                lemma_rotate_of(b, start, j);
                assert(r[t] == v);
                if t == 0 {
                    assert(c[lb] == v);
                } else {
                    assert(c[t] == v);
                }
            } else if h0 == s {
                let j = a.index_of(v);
                assert(0 <= j < la && a[j] == v);
                if j == 0 {
                    assert(c[0] == v);
                } else {
                    assert(c[lb + j] == v);
                }
            } else {
                assert(new.chains[h0] == pos.chains[h0]);
            }
        }
        assert forall|h: int| 0 <= h < 441 && new.has_stone(h) && new.head[h] == h implies {
            let ch = #[trigger] new.chains[h];
            &&& ch.len() >= 1
            &&& ch[0] == h
            &&& ch.no_duplicates()
            &&& forall|i: int| 0 <= i < ch.len() ==> 0 <= #[trigger] ch[i] < 441 && new.head[ch[i]] == h && new.has_stone(ch[i])
        } by {
            if h != s {
                assert(pos.head[h] == h && h != hb);
                let ch = pos.chains[h];
                assert(new.chains[h] == ch);
                assert forall|i: int| 0 <= i < ch.len() implies 0 <= #[trigger] ch[i] < 441 && new.head[ch[i]] == h && new.has_stone(ch[i]) by {
                    assert(pos.head[ch[i]] == h);
                }
            }
        }
    }
    assert(links_ok(new, next2)) by {
        assert forall|h: int| 0 <= h < 441 && new.has_stone(h) && new.head[h] == h implies chain_linked(#[trigger] new.chains[h], next2) by {
            if h == s {
                let lc = la + lb;
                assert forall|i: int| 0 <= i < c.len() implies #[trigger] link_ok(c, next2, i) by {
                    if i == 0 {
                        assert(c[0] == s);
                        assert(next2[s] == next[n]);
                        assert(link_ok(r, next, 0));
                        if lb == 1 {
                            assert(c[1] == r[0]);
                        } else {
                            assert(c[1] == r[1]);
                        }
                    } else if i < lb {
                        assert(c[i] == r[i]);
                        assert(r[i] != r[0]);
                        assert(pos.head[c[i]] == hb) by {
                            lemma_rotate_at(b, start, i);
                        }
                        assert(link_ok(r, next, i));
                        if i + 1 < lb {
                            assert(c[i + 1] == r[i + 1]);
                        } else {
                            assert(c[lb] == r[0]);
                        }
                    } else if i == lb {
                        assert(c[i] == n);
                        assert(next2[n] == next[s]);
                        assert(link_ok(a, next, 0));
                        if la == 1 {
                            assert(wrap_next(i, lc) == 0);
                        } else {
                            assert(c[lb + 1] == a[1]);
                        }
                    } else {
                        let ia = i - lb;
                        assert(c[i] == a[ia]);
                        assert(a[ia] != a[0]);
                        assert(pos.head[a[ia]] == s);
                        assert(link_ok(a, next, ia));
                        if ia + 1 < la {
                            assert(c[lb + (ia + 1)] == a[ia + 1]);
                        } else {
                            assert(wrap_next(i, lc) == 0);
                        }
                    }
                }
            } else {
                assert(pos.head[h] == h && h != hb);
                let ch = pos.chains[h];
                assert(new.chains[h] == ch);
                assert(chain_linked(ch, next));
                assert forall|i: int| 0 <= i < ch.len() implies #[trigger] link_ok(ch, next2, i) by {
                    assert(pos.head[ch[i]] == h);
                    assert(link_ok(ch, next, i));
                }
            }
        }
    }
    assert(sizes_ok(new, strings2)) by {
        assert forall|h: int| 0 <= h < 441 && new.head[h] == h implies if new.has_stone(h) {
            (#[trigger] strings2[h]).num_stones == new.chains[h].len() && strings2[h].color == new.board[h]
        } else {
            strings2[h].num_stones == 0 && strings2[h].color == Stone::Empty
        } by {
            assert(pos.head[h] == h);
            if h == s {
                assert(strings[s].num_stones == la);
                assert(strings[hb].num_stones == lb);
            } else {
                assert(h != hb);
                assert(strings2[h] == strings[h]);
            }
        }
    }
}

/// A stone at the empty cell `v` as a string of its own leaves the strings
/// well formed, when its link leads to itself and it records one stone.
#[verifier::rlimit(50)]
pub proof fn lemma_founded_structure(pos: Position, next: Seq<int>, strings: Seq<StringView>, v: int, stone: Stone, fresh: StringView)
    requires
        pos.board.len() == 441,
        pos.head.len() == 441,
        pos.chains.len() == 441,
        next.len() == 441,
        strings.len() == 441,
        structure_ok(pos, next, strings),
        0 <= v < 441,
        !pos.has_stone(v),
        stone.is_color(),
        fresh.num_stones == 1,
        fresh.color == stone,
    ensures
        structure_ok(Position { board: pos.board.update(v, stone), ..pos.founded(v) }, next.update(v, v), strings.update(v, fresh)),
{
    let new = Position { board: pos.board.update(v, stone), ..pos.founded(v) };
    let next2 = next.update(v, v);
    let strings2 = strings.update(v, fresh);
    assert(pos.head[v] == v);
    assert(new.head =~= pos.head);
    let c = seq![v];
    assert(new.chains[v] == c);
    assert(new.valid_strings()) by {
        assert forall|u: int| 0 <= u < 441 && !new.has_stone(u) implies #[trigger] new.head[u] == u by {
            assert(pos.head[u] == u);
        }
        assert forall|u: int| 0 <= u < 441 && !(new.has_stone(u) && new.head[u] == u) implies (#[trigger] new.chains[u]).len() == 0 by {
            assert(u != v);
            assert(pos.chains[u].len() == 0);
        }
        assert forall|u: int| 0 <= u < 441 && new.has_stone(u) implies {
            let h = #[trigger] new.head[u];
            &&& 0 <= h < 441
            &&& new.head[h] == h
            &&& new.board[h] == new.board[u]
            &&& new.chains[h].contains(u)
        } by {
            if u == v {
                assert(c[0] == v);
            } else {
                let h0 = pos.head[u];
                assert(pos.head[h0] == h0 && pos.board[h0] == pos.board[u] && pos.chains[h0].contains(u));
                assert(h0 != v);
            }
        }
        assert forall|h: int| 0 <= h < 441 && new.has_stone(h) && new.head[h] == h implies {
            let ch = #[trigger] new.chains[h];
            &&& ch.len() >= 1
            &&& ch[0] == h
            &&& ch.no_duplicates()
            &&& forall|i: int| 0 <= i < ch.len() ==> 0 <= #[trigger] ch[i] < 441 && new.head[ch[i]] == h && new.has_stone(ch[i])
        } by {
            if h != v {
                let ch = pos.chains[h];
                assert(new.chains[h] == ch);
                assert forall|i: int| 0 <= i < ch.len() implies 0 <= #[trigger] ch[i] < 441 && new.head[ch[i]] == h && new.has_stone(ch[i]) by {
                    assert(pos.head[ch[i]] == h && pos.has_stone(ch[i]));
                }
            }
        }
    }
    assert(links_ok(new, next2)) by {
        assert forall|h: int| 0 <= h < 441 && new.has_stone(h) && new.head[h] == h implies chain_linked(#[trigger] new.chains[h], next2) by {
            if h == v {
                assert forall|i: int| 0 <= i < c.len() implies #[trigger] link_ok(c, next2, i) by {}
            } else {
                let ch = pos.chains[h];
                assert(new.chains[h] == ch);
                assert(chain_linked(ch, next));
                assert forall|i: int| 0 <= i < ch.len() implies #[trigger] link_ok(ch, next2, i) by {
                    assert(pos.has_stone(ch[i]));
                    assert(link_ok(ch, next, i));
                }
            }
        }
    }
    assert(sizes_ok(new, strings2)) by {
        assert forall|h: int| 0 <= h < 441 && new.head[h] == h implies if new.has_stone(h) {
            (#[trigger] strings2[h]).num_stones == new.chains[h].len() && strings2[h].color == new.board[h]
        } else {
            strings2[h].num_stones == 0 && strings2[h].color == Stone::Empty
        } by {
            if h != v {
                assert(strings2[h] == strings[h]);
                assert(pos.head[h] == h);
            }
        }
    }
}

/// A stone at the empty cell `v` added behind the head `s` of a string of
/// its color leaves the strings well formed, when it takes over the link
/// of `s`, whose link leads to it, and `s` records one stone more.
#[verifier::rlimit(50)]
pub proof fn lemma_attached_structure(pos: Position, next: Seq<int>, strings: Seq<StringView>, v: int, s: int, stone: Stone, grown: StringView)
    requires
        pos.board.len() == 441,
        pos.head.len() == 441,
        pos.chains.len() == 441,
        next.len() == 441,
        strings.len() == 441,
        structure_ok(pos, next, strings),
        0 <= v < 441,
        !pos.has_stone(v),
        stone.is_color(),
        0 <= s < 441,
        pos.board[s] == stone,
        pos.head[s] == s,
        grown.num_stones == strings[s].num_stones + 1,
        grown.color == strings[s].color,
    ensures
        structure_ok(Position { board: pos.board.update(v, stone), ..pos.attached(v, s) }, next.update(v, next[s]).update(s, v), strings.update(s, grown)),
        pos.attached(v, s).chains[s].len() == pos.chains[s].len() + 1,
        pos.attached(v, s).chains[s].len() <= 441,
{
    let new = Position { board: pos.board.update(v, stone), ..pos.attached(v, s) };
    let next2 = next.update(v, next[s]).update(s, v);
    let strings2 = strings.update(s, grown);
    let a = pos.chains[s];
    let la = a.len() as int;
    assert(pos.has_stone(s));
    assert(la >= 1 && a[0] == s);
    let c = seq![s, v] + a.drop_first();
    assert(new.chains[s] == c);
    assert(c.len() == la + 1);
    assert(c[0] == s && c[1] == v);
    assert forall|j: int| 2 <= j < c.len() implies #[trigger] c[j] == a[j - 1] by {}
    assert(pos.head[v] == v);
    assert forall|j: int| 0 <= j < c.len() implies 0 <= #[trigger] c[j] < 441 && new.head[c[j]] == s && new.has_stone(c[j]) by {
        if j >= 2 {
            assert(c[j] == a[j - 1]);
            assert(pos.head[a[j - 1]] == s && pos.has_stone(a[j - 1]));
        }
    }
    assert(c.no_duplicates()) by {
        assert forall|i: int, j: int| 0 <= i < c.len() && 0 <= j < c.len() && i != j implies c[i] != c[j] by {
            let ia = if i == 0 { 0 } else { i - 1 };
            let ja = if j == 0 { 0 } else { j - 1 };
            if i != 1 {
                assert(c[i] == a[ia]);
                assert(pos.has_stone(a[ia]));
            }
            if j != 1 {
                assert(c[j] == a[ja]);
                assert(pos.has_stone(a[ja]));
            }
        }
    }
    lemma_chain_length(c);
    assert(new.valid_strings()) by {
        assert forall|u: int| 0 <= u < 441 && !new.has_stone(u) implies #[trigger] new.head[u] == u by {
            assert(pos.head[u] == u);
        }
        assert forall|u: int| 0 <= u < 441 && !(new.has_stone(u) && new.head[u] == u) implies (#[trigger] new.chains[u]).len() == 0 by {
            if u != s {
                assert(pos.chains[u].len() == 0);
            }
        }
        assert forall|u: int| 0 <= u < 441 && new.has_stone(u) implies {
            let h = #[trigger] new.head[u];
            &&& 0 <= h < 441
            &&& new.head[h] == h
            &&& new.board[h] == new.board[u]
            &&& new.chains[h].contains(u)
        } by {
            if u == v {
                assert(c[1] == v);
            } else {
                let h0 = pos.head[u];
                assert(pos.head[h0] == h0 && pos.board[h0] == pos.board[u] && pos.chains[h0].contains(u));
                assert(h0 != v);
                if h0 == s {
                    let j = a.index_of(u);
                    assert(0 <= j < la && a[j] == u);
                    if j == 0 {
                        assert(c[0] == u);
                    } else {
                        assert(c[j + 1] == u);
                    }
                }
            }
        }
        assert forall|h: int| 0 <= h < 441 && new.has_stone(h) && new.head[h] == h implies {
            let ch = #[trigger] new.chains[h];
            &&& ch.len() >= 1
            &&& ch[0] == h
            &&& ch.no_duplicates()
            &&& forall|i: int| 0 <= i < ch.len() ==> 0 <= #[trigger] ch[i] < 441 && new.head[ch[i]] == h && new.has_stone(ch[i])
        } by {
            if h != s {
                assert(h != v);
                let ch = pos.chains[h];
                assert(new.chains[h] == ch);
                assert forall|i: int| 0 <= i < ch.len() implies 0 <= #[trigger] ch[i] < 441 && new.head[ch[i]] == h && new.has_stone(ch[i]) by {
                    assert(pos.head[ch[i]] == h && pos.has_stone(ch[i]));
                }
            }
        }
    }
    assert(links_ok(new, next2)) by {
        assert forall|h: int| 0 <= h < 441 && new.has_stone(h) && new.head[h] == h implies chain_linked(#[trigger] new.chains[h], next2) by {
            if h == s {
                assert(chain_linked(a, next));
                assert forall|i: int| 0 <= i < c.len() implies #[trigger] link_ok(c, next2, i) by {
                    if i == 0 {
                    } else if i == 1 {
                        assert(link_ok(a, next, 0));
                        if la > 1 {
                            assert(c[2] == a[1]);
                        }
                    } else {
                        assert(c[i] == a[i - 1]);
                        assert(pos.has_stone(a[i - 1]));
                        assert(a[i - 1] != a[0]);
                        assert(link_ok(a, next, i - 1));
                        if i < la {
                            assert(c[i + 1] == a[i]);
                        }
                    }
                }
            } else {
                assert(h != v);
                let ch = pos.chains[h];
                assert(new.chains[h] == ch);
                assert(chain_linked(ch, next));
                assert forall|i: int| 0 <= i < ch.len() implies #[trigger] link_ok(ch, next2, i) by {
                    assert(pos.has_stone(ch[i]) && pos.head[ch[i]] == h);
                    assert(link_ok(ch, next, i));
                }
            }
        }
    }
    assert(sizes_ok(new, strings2)) by {
        assert forall|h: int| 0 <= h < 441 && new.head[h] == h implies if new.has_stone(h) {
            (#[trigger] strings2[h]).num_stones == new.chains[h].len() && strings2[h].color == new.board[h]
        } else {
            strings2[h].num_stones == 0 && strings2[h].color == Stone::Empty
        } by {
            if h == s {
                assert(strings[s].num_stones == la);
            } else {
                assert(h != v);
                assert(pos.head[h] == h);
                assert(strings2[h] == strings[h]);
            }
        }
    }
}

/// Where the stone `w` of the chain `c` lies when the chain is read from
/// `start` on.
pub open spec fn chain_rank(c: Seq<int>, start: int, w: int) -> int {
    unturned(start, c.index_of(w), c.len() as int)
}

/// The rank of the entry at `t` of a rotation is `t`.
pub proof fn lemma_rank_of_entry(c: Seq<int>, start: int, t: int)
    requires
        c.no_duplicates(),
        0 <= start < c.len(),
        0 <= t < c.len(),
    ensures
        chain_rank(c, start, rotate(c, start)[t]) == t,
{
    lemma_rotate_at(c, start, t);
    let j = turned(start, t, c.len() as int);
    let w = c[j];
    let j2 = c.index_of(w);
    assert(0 <= j2 < c.len() && c[j2] == w);
}

/// A stone of a chain lies at its rank in the rotation.
pub proof fn lemma_entry_of_rank(c: Seq<int>, start: int, w: int)
    requires
        0 <= start < c.len(),
        c.contains(w),
    ensures
        0 <= chain_rank(c, start, w) < c.len(),
        rotate(c, start)[chain_rank(c, start, w)] == w,
{
    let j = c.index_of(w);
    assert(0 <= j < c.len() && c[j] == w);
    lemma_rotate_of(c, start, j);
}

/// Taking the string of `n` off the board leaves the strings well formed,
/// when the other cells keep their links and their records and the cells
/// of the string record no stones.
#[verifier::rlimit(50)]
pub proof fn lemma_removed_structure(pos: Position, next: Seq<int>, strings: Seq<StringView>, n: int, next2: Seq<int>, strings2: Seq<StringView>)
    requires
        pos.board.len() == 441,
        pos.head.len() == 441,
        pos.chains.len() == 441,
        next.len() == 441,
        strings.len() == 441,
        next2.len() == 441,
        strings2.len() == 441,
        structure_ok(pos, next, strings),
        0 <= n < 441,
        pos.has_stone(n),
        forall|w: int| 0 <= w < 441 && !pos.in_string(w, pos.head[n]) ==> #[trigger] next2[w] == next[w],
        forall|w: int| 0 <= w < 441 && !pos.in_string(w, pos.head[n]) ==> (#[trigger] strings2[w]).num_stones == strings[w].num_stones && strings2[w].color == strings[w].color,
        forall|w: int| 0 <= w < 441 && pos.in_string(w, pos.head[n]) ==> (#[trigger] strings2[w]).num_stones == 0 && strings2[w].color == Stone::Empty,
    ensures
        structure_ok(pos.removed(n), next2, strings2),
{
    let h = pos.head[n];
    let new = pos.removed(n);
    assert(pos.head[h] == h && pos.has_stone(h));
    assert(new.valid_strings()) by {
        assert forall|u: int| 0 <= u < 441 && !new.has_stone(u) implies #[trigger] new.head[u] == u by {
            if !pos.in_string(u, h) {
                assert(pos.head[u] == u);
            }
        }
        assert forall|u: int| 0 <= u < 441 && !(new.has_stone(u) && new.head[u] == u) implies (#[trigger] new.chains[u]).len() == 0 by {
            if u != h {
                if pos.has_stone(u) && pos.head[u] == u {
                    assert(!pos.in_string(u, h));
                }
                assert(pos.chains[u].len() == 0);
            }
        }
        assert forall|u: int| 0 <= u < 441 && new.has_stone(u) implies {
            let hu = #[trigger] new.head[u];
            &&& 0 <= hu < 441
            &&& new.head[hu] == hu
            &&& new.board[hu] == new.board[u]
            &&& new.chains[hu].contains(u)
        } by {
            let h0 = pos.head[u];
            assert(pos.has_stone(u) && !pos.in_string(u, h));
            assert(pos.head[h0] == h0 && pos.board[h0] == pos.board[u] && pos.chains[h0].contains(u));
        }
        assert forall|x: int| 0 <= x < 441 && new.has_stone(x) && new.head[x] == x implies {
            let ch = #[trigger] new.chains[x];
            &&& ch.len() >= 1
            &&& ch[0] == x
            &&& ch.no_duplicates()
            &&& forall|i: int| 0 <= i < ch.len() ==> 0 <= #[trigger] ch[i] < 441 && new.head[ch[i]] == x && new.has_stone(ch[i])
        } by {
            assert(pos.has_stone(x) && pos.head[x] == x && x != h);
            let ch = pos.chains[x];
            assert(new.chains[x] == ch);
            assert forall|i: int| 0 <= i < ch.len() implies 0 <= #[trigger] ch[i] < 441 && new.head[ch[i]] == x && new.has_stone(ch[i]) by {
                assert(pos.head[ch[i]] == x && pos.has_stone(ch[i]));
            }
        }
    }
    assert(links_ok(new, next2)) by {
        assert forall|x: int| 0 <= x < 441 && new.has_stone(x) && new.head[x] == x implies chain_linked(#[trigger] new.chains[x], next2) by {
            assert(pos.has_stone(x) && pos.head[x] == x && x != h);
            let ch = pos.chains[x];
            assert(new.chains[x] == ch);
            assert(chain_linked(ch, next));
            assert forall|i: int| 0 <= i < ch.len() implies #[trigger] link_ok(ch, next2, i) by {
                assert(pos.head[ch[i]] == x && pos.has_stone(ch[i]));
                assert(link_ok(ch, next, i));
            }
        }
    }
    assert(sizes_ok(new, strings2)) by {
        assert forall|x: int| 0 <= x < 441 && new.head[x] == x implies if new.has_stone(x) {
            (#[trigger] strings2[x]).num_stones == new.chains[x].len() && strings2[x].color == new.board[x]
        } else {
            strings2[x].num_stones == 0 && strings2[x].color == Stone::Empty
        } by {
            if !pos.in_string(x, h) {
                assert(pos.head[x] == x);
                if x == h {
                    assert(!pos.has_stone(x));
                }
            }
        }
    }
}

} // verus!
