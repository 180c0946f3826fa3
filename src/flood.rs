//! The flood fill that reveals a blank region and its numbered border.
use vstd::prelude::*;
use std::collections::VecDeque;
use crate::board::{
    Board, BoardView, Cell, coords_view, lemma_index, lemma_split, lemma_with_cell,
    lemma_neighbors_in_facts, lemma_no_mines_among,
};

verus! {

/// Coordinates as mathematical integers.
pub open spec fn iv(p: (usize, usize)) -> (int, int) {
    (p.0 as int, p.1 as int)
}

/// The fill spreads from `p` to `q`: `p` has no mine around it and `q` is one of its
/// neighbours without a flag.
pub open spec fn spreads(b: BoardView, p: (int, int), q: (int, int)) -> bool {
    &&& b.in_bounds(p.0, p.1)
    &&& b.cell(p.0, p.1).adjacent_mines == 0
    &&& b.neighbor_seq(p.0, p.1).contains(q)
    &&& !b.cell(q.0, q.1).is_flagged
}

/// The `k`-th cell of a visiting order is reached by a spread from an earlier one.
pub open spec fn has_parent(b: BoardView, order: Seq<(int, int)>, k: int) -> bool {
    exists|j: int| 0 <= j < k && #[trigger] spreads(b, order[j], order[k])
}

/// Nothing that `t` holds spreads outside `t`.
pub open spec fn closed_under_spread(b: BoardView, t: Set<(int, int)>) -> bool {
    forall|p: (int, int), q: (int, int)| t.contains(p) && #[trigger] spreads(b, p, q) ==> t.contains(q)
}

/// `t` is the smallest set that holds `start` and is closed under spreading.
pub open spec fn is_flood_region(b: BoardView, start: (int, int), t: Set<(int, int)>) -> bool {
    &&& t.contains(start)
    &&& closed_under_spread(b, t)
    &&& forall|t2: Set<(int, int)>|
        t2.contains(start) && #[trigger] closed_under_spread(b, t2) ==> t.subset_of(t2)
}

/// The cells that revealing `start` uncovers.
pub open spec fn flood(b: BoardView, start: (int, int)) -> Set<(int, int)> {
    choose|t: Set<(int, int)>| is_flood_region(b, start, t)
}

/// `after` is `before` with the cells of `t` revealed and nothing else changed.
pub open spec fn revealed_exactly(before: BoardView, after: BoardView, t: Set<(int, int)>) -> bool {
    &&& after.width == before.width
    &&& after.height == before.height
    &&& after.mines_placed == before.mines_placed
    &&& after.wf()
    &&& after.mine_total() == before.mine_total()
    &&& after.flag_total() == before.flag_total()
    &&& forall|r: int, c: int|
        before.in_bounds(r, c) ==> #[trigger] after.cell(r, c) == (Cell {
            is_revealed: before.cell(r, c).is_revealed || t.contains((r, c)),
            ..before.cell(r, c)
        })
}

/// No two positions of `s` are equal.
pub open spec fn distinct(s: Seq<(int, int)>) -> bool {
    forall|i: int, j: int| 0 <= i < j < s.len() ==> s[i] != s[j]
}

/// Number of `false` entries.
pub open spec fn count_false(s: Seq<bool>) -> nat
    decreases s.len(),
{
    if s.len() == 0 {
        0
    } else {
        count_false(s.drop_last()) + if s.last() { 0nat } else { 1 }
    }
}

proof fn lemma_count_false_set(s: Seq<bool>, i: int)
    requires
        0 <= i < s.len(),
        !s[i],
    ensures
        count_false(s.update(i, true)) + 1 == count_false(s),
    decreases s.len(),
{
    if i == s.len() - 1 {
        assert(s.update(i, true).drop_last() =~= s.drop_last());
    } else {
        assert(s.update(i, true).drop_last() =~= s.drop_last().update(i, true));
        lemma_count_false_set(s.drop_last(), i);
    }
}

/// The flood region of a cell exists, and it is the least set that holds the cell and
/// is closed under spreading. Every cell of it other than the start is reached by a
/// spread from a blank cell of it: the region is the connected blank zone of the start
/// and its numbered border, and nothing beyond.
pub proof fn lemma_flood_is_least_closed_region(b: BoardView, start: (int, int))
    ensures
        is_flood_region(b, start, flood(b, start)),
        forall|q: (int, int)|
            flood(b, start).contains(q) && q != start ==> exists|p: (int, int)|
                flood(b, start).contains(p) && #[trigger] spreads(b, p, q),
{
    let t = Set::new(
        |q: (int, int)|
            forall|t2: Set<(int, int)>|
                t2.contains(start) && #[trigger] closed_under_spread(b, t2) ==> t2.contains(q),
    );
    assert forall|p: (int, int), q: (int, int)| t.contains(p) && #[trigger] spreads(b, p, q) implies t.contains(q) by {
        assert forall|t2: Set<(int, int)>| t2.contains(start) && #[trigger] closed_under_spread(b, t2) implies t2.contains(q) by {
            assert(t2.contains(p));
        }
    }
    assert(is_flood_region(b, start, t));
    let f = flood(b, start);
    assert(is_flood_region(b, start, f));
    assert forall|q: (int, int)| f.contains(q) && q != start implies exists|p: (int, int)|
        f.contains(p) && #[trigger] spreads(b, p, q) by {
        if !exists|p: (int, int)| f.contains(p) && #[trigger] spreads(b, p, q) {
            let f2 = f.remove(q);
            assert forall|p2: (int, int), q2: (int, int)| f2.contains(p2) && #[trigger] spreads(b, p2, q2) implies f2.contains(q2) by {
                assert(f.contains(q2));
            }
            assert(closed_under_spread(b, f2));
            assert(f.subset_of(f2));
        }
    }
}

/// A cell with a flag is never part of a flood region that starts from a cell without one.
pub proof fn lemma_flood_avoids_flags(b: BoardView, start: (int, int))
    requires
        b.in_bounds(start.0, start.1),
        !b.cell(start.0, start.1).is_flagged,
    ensures
        forall|q: (int, int)| #[trigger] flood(b, start).contains(q) ==> !b.cell(q.0, q.1).is_flagged,
{
    lemma_flood_is_least_closed_region(b, start);
    assert forall|q: (int, int)| #[trigger] flood(b, start).contains(q) implies !b.cell(q.0, q.1).is_flagged by {
        if q != start {
            let p = choose|p: (int, int)| flood(b, start).contains(p) && #[trigger] spreads(b, p, q);
        }
    }
}

/// On a well-formed board the flood region of a cell without a mine holds no mine: the
/// fill only spreads from cells with no mine around them.
pub proof fn lemma_flood_avoids_mines(b: BoardView, start: (int, int))
    requires
        b.wf(),
        b.in_bounds(start.0, start.1),
        !b.cell(start.0, start.1).is_mine,
    ensures
        forall|q: (int, int)| #[trigger] flood(b, start).contains(q) ==> !b.is_mine_at(q.0, q.1),
{
    lemma_flood_is_least_closed_region(b, start);
    assert forall|q: (int, int)| #[trigger] flood(b, start).contains(q) implies !b.is_mine_at(q.0, q.1) by {
        if q != start {
            let p = choose|p: (int, int)| flood(b, start).contains(p) && #[trigger] spreads(b, p, q);
            let ns = b.neighbor_seq(p.0, p.1);
            assert(b.cell(p.0, p.1).adjacent_mines as int == b.adjacent_mine_count(p.0, p.1));
            let m = choose|m: int| 0 <= m < ns.len() && ns[m] == q;
            lemma_no_mines_among(b, ns, m);
        }
    }
}

proof fn lemma_flood_unique(b: BoardView, start: (int, int), t: Set<(int, int)>)
    requires
        is_flood_region(b, start, t),
    ensures
        flood(b, start) == t,
{
    let f = flood(b, start);
    assert(is_flood_region(b, start, f));
    assert(f.subset_of(t));
    assert(t.subset_of(f));
    assert(f =~= t);
}

proof fn lemma_order_in_closed(b: BoardView, start: (int, int), order: Seq<(int, int)>, t2: Set<(int, int)>, i: int)
    requires
        order.len() > 0,
        order[0] == start,
        forall|k: int| 0 < k < order.len() ==> #[trigger] has_parent(b, order, k),
        t2.contains(start),
        closed_under_spread(b, t2),
        0 <= i < order.len(),
    ensures
        t2.contains(order[i]),
    decreases i,
{
    if i > 0 {
        assert(has_parent(b, order, i));
        let j = choose|j: int| 0 <= j < i && #[trigger] spreads(b, order[j], order[i]);
        lemma_order_in_closed(b, start, order, t2, j);
    }
}

/// Breadth-first reveal from `(row, col)`: every cell of its flood region is revealed,
/// nothing else changes. Returns the cells that were hidden before, each once.
pub fn flood_reveal(board: &mut Board, row: usize, col: usize) -> (changed: Vec<(usize, usize)>)
    requires
        old(board)@.wf(),
        old(board)@.in_bounds(row as int, col as int),
        !old(board)@.cell(row as int, col as int).is_flagged,
    ensures
        revealed_exactly(old(board)@, final(board)@, flood(old(board)@, (row as int, col as int))),
        distinct(coords_view(changed@)),
        forall|q: (int, int)| #[trigger] coords_view(changed@).contains(q) <==> flood(old(board)@, (row as int, col as int)).contains(q)
            && !old(board)@.cell(q.0, q.1).is_revealed,
{
    let ghost b0 = board@;
    let ghost start = (row as int, col as int);
    let w = board.width();
    let h = board.height();
    let n = w * h;
    let mut visited: Vec<bool> = Vec::new();
    let mut i: usize = 0;
    while i < n
        invariant
            i <= n,
            visited@.len() == i,
            forall|j: int| 0 <= j < i ==> !(#[trigger] visited@[j]),
        decreases n - i,
    {
        visited.push(false);
        i = i + 1;
    }
    let mut queue: VecDeque<(usize, usize)> = VecDeque::new();
    queue.push_back((row, col));
    let mut changed: Vec<(usize, usize)> = Vec::new();
    let ghost mut order: Seq<(int, int)> = Seq::empty();
    proof {
        assert(revealed_exactly(b0, board@, order.to_set()));
    }
    while queue.len() > 0
        invariant
            b0.wf(),
            b0.in_bounds(start.0, start.1),
            !b0.cell(start.0, start.1).is_flagged,
            start == (row as int, col as int),
            w == b0.width,
            h == b0.height,
            n == w * h,
            visited@.len() == n,
            revealed_exactly(b0, board@, order.to_set()),
            forall|t: int| 0 <= t < n ==> (#[trigger] visited@[t] <==> order.contains((t / w as int, t % w as int))),
            forall|k: int| 0 <= k < order.len() ==> b0.in_bounds((#[trigger] order[k]).0, order[k].1),
            forall|k: int| 0 <= k < order.len() ==> !b0.cell((#[trigger] order[k]).0, order[k].1).is_flagged,
            order.len() == 0 ==> queue@ == seq![(row, col)],
            order.len() > 0 ==> order[0] == start,
            forall|k: int| 0 < k < order.len() ==> #[trigger] has_parent(b0, order, k),
            forall|k: int| 0 <= k < queue@.len() ==> b0.in_bounds((#[trigger] iv(queue@[k])).0, iv(queue@[k]).1),
            forall|k: int| 0 <= k < queue@.len() ==> #[trigger] iv(queue@[k]) == start || exists|j: int| 0 <= j < order.len()
                && b0.cell(order[j].0, order[j].1).adjacent_mines == 0
                && #[trigger] b0.neighbor_seq(order[j].0, order[j].1).contains(iv(queue@[k])),
            forall|k: int, q: (int, int)| 0 <= k < order.len() && #[trigger] spreads(b0, order[k], q)
                ==> order.contains(q) || coords_view(queue@).contains(q),
            distinct(coords_view(changed@)),
            forall|q: (int, int)| #[trigger] coords_view(changed@).contains(q) <==> order.contains(q) && !b0.cell(q.0, q.1).is_revealed,
        decreases count_false(visited@), queue@.len(),
    {
        let ghost qv = queue@;
        let x = queue.pop_front().unwrap();
        let ghost xi = iv(x);
        proof {
            assert(qv[0] == x);
            assert(b0.in_bounds(iv(qv[0]).0, iv(qv[0]).1));
            lemma_index(w as int, h as int, x.0 as int, x.1 as int);
            assert forall|k: int| 0 <= k < queue@.len() implies #[trigger] queue@[k] == qv[k + 1] by {}
        }
        let t = x.0 * w + x.1;
        let cell = board.cell_in_grid(x.0, x.1);
        proof {
            assert(cell == b0.cell(xi.0, xi.1) || cell.is_revealed);
        }
        if visited[t] || cell.is_flagged {
            proof {
                assert(visited@[t as int] == order.contains(xi));
                assert forall|k: int, q: (int, int)| 0 <= k < order.len() && #[trigger] spreads(b0, order[k], q)
                    implies order.contains(q) || coords_view(queue@).contains(q) by {
                    if !order.contains(q) {
                        assert(coords_view(qv).contains(q));
                        let m = choose|m: int| 0 <= m < qv.len() && coords_view(qv)[m] == q;
                        if m == 0 {
                            assert(q == xi);
                            assert(b0.cell(xi.0, xi.1).is_flagged == cell.is_flagged);
                        } else {
                            assert(coords_view(queue@)[m - 1] == q);
                        }
                    }
                }
                assert forall|k: int| 0 <= k < queue@.len() implies #[trigger] iv(queue@[k]) == start || exists|j: int| 0 <= j < order.len()
                    && b0.cell(order[j].0, order[j].1).adjacent_mines == 0
                    && #[trigger] b0.neighbor_seq(order[j].0, order[j].1).contains(iv(queue@[k])) by {
                    assert(queue@[k] == qv[k + 1]);
                }
            }
            continue;
        }
        let ghost old_board = board@;
        let ghost old_order = order;
        let ghost old_visited = visited@;
        let updated = Cell { is_revealed: true, is_flagged: cell.is_flagged, is_mine: cell.is_mine, adjacent_mines: cell.adjacent_mines };
        proof {
            lemma_with_cell(board@, xi.0, xi.1, updated);
            lemma_count_false_set(visited@, t as int);
            lemma_split(w as int, h as int, t as int);
        }
        board.set_cell(x.0, x.1, updated);
        visited.set(t, true);
        proof {
            order = order.push(xi);
        }
        let ghost old_changed = changed@;
        if !cell.is_revealed {
            changed.push(x);
        }
        proof {
            assert(!old_order.contains(xi));
            assert(cell == b0.cell(xi.0, xi.1));
            assert forall|r: int, c: int| b0.in_bounds(r, c) implies #[trigger] board@.cell(r, c) == (Cell {
                is_revealed: b0.cell(r, c).is_revealed || order.to_set().contains((r, c)),
                ..b0.cell(r, c)
            }) by {
                assert(old_board.cell(r, c) == (Cell {
                    is_revealed: b0.cell(r, c).is_revealed || old_order.to_set().contains((r, c)),
                    ..b0.cell(r, c)
                }));
                if (r, c) != xi {
                    assert(order.contains((r, c)) == old_order.contains((r, c))) by {
                        if order.contains((r, c)) {
                            let m = choose|m: int| 0 <= m < order.len() && order[m] == (r, c);
                            assert(m < old_order.len());
                            assert(old_order[m] == (r, c));
                        }
                        if old_order.contains((r, c)) {
                            let m = choose|m: int| 0 <= m < old_order.len() && old_order[m] == (r, c);
                            assert(order[m] == (r, c));
                        }
                    }
                } else {
                    assert(order[order.len() - 1] == xi);
                }
            }
            assert forall|u: int| 0 <= u < n implies (#[trigger] visited@[u] <==> order.contains((u / w as int, u % w as int))) by {
                lemma_split(w as int, h as int, u);
                let pu = (u / w as int, u % w as int);
                if u == t {
                    assert(order[order.len() - 1] == xi);
                } else {
                    assert(old_visited[u] == visited@[u]);
                    if pu == xi {
                        assert(u == t);
                    }
                    if order.contains(pu) {
                        let m = choose|m: int| 0 <= m < order.len() && order[m] == pu;
                        assert(m < old_order.len());
                        assert(old_order[m] == pu);
                    }
                    if old_order.contains(pu) {
                        let m = choose|m: int| 0 <= m < old_order.len() && old_order[m] == pu;
                        assert(order[m] == pu);
                    }
                }
            }
            if old_order.len() > 0 {
                assert(xi != start) by {
                    lemma_index(w as int, h as int, start.0, start.1);
                    assert(old_order[0] == start);
                    assert(old_visited[start.0 * w + start.1] == old_order.contains((start.0, start.1)));
                }
                let j = choose|j: int| 0 <= j < old_order.len()
                    && b0.cell(old_order[j].0, old_order[j].1).adjacent_mines == 0
                    && #[trigger] b0.neighbor_seq(old_order[j].0, old_order[j].1).contains(iv(qv[0]));
                assert(spreads(b0, order[j], order[old_order.len() as int]));
            }
            assert forall|k: int| 0 < k < order.len() implies #[trigger] has_parent(b0, order, k) by {
                if k < old_order.len() {
                    assert(has_parent(b0, old_order, k));
                    let j = choose|j: int| 0 <= j < k && #[trigger] spreads(b0, old_order[j], old_order[k]);
                    assert(spreads(b0, order[j], order[k]));
                } else {
                    assert(k == old_order.len());
                }
            }
            assert(distinct(coords_view(changed@))) by {
                if !cell.is_revealed {
                    assert forall|a: int, c: int| 0 <= a < c < changed@.len() implies coords_view(changed@)[a] != coords_view(changed@)[c] by {
                        assert(changed@ == old_changed.push(x));
                        if c == changed@.len() - 1 {
                            assert(coords_view(changed@)[c] == xi);
                            assert(coords_view(changed@)[a] == coords_view(old_changed)[a]);
                            assert(coords_view(old_changed).contains(coords_view(old_changed)[a]));
                            assert(old_order.contains(coords_view(old_changed)[a]));
                        } else {
                            assert(coords_view(changed@)[a] == coords_view(old_changed)[a]);
                            assert(coords_view(changed@)[c] == coords_view(old_changed)[c]);
                            assert(distinct(coords_view(old_changed)));
                        }
                    }
                }
            }
        }
        let ghost pre_changed = changed@;
        let ghost mut pushed: Seq<(usize, usize)> = Seq::empty();
        if cell.adjacent_mines == 0 {
            let nb = board.neighbors_in_grid(x.0, x.1);
            let ghost q_before = queue@;
            proof {
                lemma_neighbors_in_facts(w as int, h as int, xi.0, xi.1, 0);
            }
            let mut k: usize = 0;
            while k < nb.len()
                invariant
                    k <= nb@.len(),
                    queue@ == q_before + nb@.subrange(0, k as int),
                decreases nb@.len() - k,
            {
                queue.push_back(nb[k]);
                proof {
                    assert(queue@ =~= q_before + nb@.subrange(0, k + 1));
                }
                k = k + 1;
            }
            proof {
                assert(nb@.subrange(0, nb@.len() as int) =~= nb@);
                pushed = nb@;
            }
        }
        proof {
            assert(queue@ =~= qv.subrange(1, qv.len() as int) + pushed);
            assert(cell.adjacent_mines == 0 ==> coords_view(pushed) == b0.neighbor_seq(xi.0, xi.1));
        }
        proof {
            let last = old_order.len() as int;
            assert(order[last] == xi);
            assert forall|k: int| 0 <= k < queue@.len() implies b0.in_bounds((#[trigger] iv(queue@[k])).0, iv(queue@[k]).1)
                && (iv(queue@[k]) == start || exists|j: int| 0 <= j < order.len()
                && b0.cell(order[j].0, order[j].1).adjacent_mines == 0
                && #[trigger] b0.neighbor_seq(order[j].0, order[j].1).contains(iv(queue@[k]))) by {
                if k < qv.len() - 1 {
                    assert(queue@[k] == qv[k + 1]);
                    if iv(queue@[k]) != start {
                        let j = choose|j: int| 0 <= j < old_order.len()
                            && b0.cell(old_order[j].0, old_order[j].1).adjacent_mines == 0
                            && #[trigger] b0.neighbor_seq(old_order[j].0, old_order[j].1).contains(iv(qv[k + 1]));
                        assert(order[j] == old_order[j]);
                    }
                } else {
                    let ns = b0.neighbor_seq(xi.0, xi.1);
                    let m = k - (qv.len() - 1);
                    assert(cell.adjacent_mines == 0);
                    assert(coords_view(pushed)[m] == ns[m]);
                    assert(ns[m] == iv(queue@[k]));
                    assert(ns.contains(iv(queue@[k])));
                    assert(b0.cell(order[last].0, order[last].1).adjacent_mines == 0);
                }
            }
            assert forall|k: int, q: (int, int)| 0 <= k < order.len() && #[trigger] spreads(b0, order[k], q)
                implies order.contains(q) || coords_view(queue@).contains(q) by {
                if k == last {
                    let ns = b0.neighbor_seq(xi.0, xi.1);
                    let m = choose|m: int| 0 <= m < ns.len() && ns[m] == q;
                    assert(coords_view(pushed)[m] == q);
                    assert(queue@[qv.len() - 1 + m] == pushed[m]);
                    assert(coords_view(queue@)[qv.len() - 1 + m] == q);
                } else {
                    assert(order[k] == old_order[k]);
                    if old_order.contains(q) {
                        let m = choose|m: int| 0 <= m < old_order.len() && old_order[m] == q;
                        assert(order[m] == q);
                    } else {
                        let m = choose|m: int| 0 <= m < qv.len() && coords_view(qv)[m] == q;
                        if m == 0 {
                            assert(order[last] == q);
                        } else {
                            assert(queue@[m - 1] == qv[m]);
                            assert(coords_view(queue@)[m - 1] == q);
                        }
                    }
                }
            }
            assert forall|q: (int, int)| #[trigger] coords_view(changed@).contains(q) <==> order.contains(q) && !b0.cell(q.0, q.1).is_revealed by {
                if q == xi {
                    if !cell.is_revealed {
                        assert(coords_view(changed@)[changed@.len() - 1] == xi);
                    } else {
                        assert(!coords_view(changed@).contains(q)) by {
                            if coords_view(changed@).contains(q) {
                                assert(old_order.contains(q));
                            }
                        }
                    }
                } else {
                    assert(order.contains(q) == old_order.contains(q)) by {
                        if order.contains(q) {
                            let m = choose|m: int| 0 <= m < order.len() && order[m] == q;
                            assert(old_order[m] == q);
                        }
                        if old_order.contains(q) {
                            let m = choose|m: int| 0 <= m < old_order.len() && old_order[m] == q;
                            assert(order[m] == q);
                        }
                    }
                    if !cell.is_revealed {
                        let prior = old_changed;
                        assert(pre_changed == old_changed.push(x));
                        assert(coords_view(changed@).contains(q) == coords_view(prior).contains(q)) by {
                            if coords_view(changed@).contains(q) {
                                let m = choose|m: int| 0 <= m < changed@.len() && coords_view(changed@)[m] == q;
                                assert(m < prior.len());
                                assert(coords_view(prior)[m] == q);
                            }
                            if coords_view(prior).contains(q) {
                                let m = choose|m: int| 0 <= m < prior.len() && coords_view(prior)[m] == q;
                                assert(coords_view(changed@)[m] == q);
                            }
                        }
                    }
                }
            }
        }
    }
    proof {
        assert(order.len() > 0);
        let tset = order.to_set();
        assert forall|p: (int, int), q: (int, int)| tset.contains(p) && #[trigger] spreads(b0, p, q) implies tset.contains(q) by {
            let k = choose|k: int| 0 <= k < order.len() && order[k] == p;
            assert(spreads(b0, order[k], q));
        }
        assert forall|t2: Set<(int, int)>| t2.contains(start) && #[trigger] closed_under_spread(b0, t2) implies tset.subset_of(t2) by {
            assert forall|q: (int, int)| tset.contains(q) implies t2.contains(q) by {
                let k = choose|k: int| 0 <= k < order.len() && order[k] == q;
                lemma_order_in_closed(b0, start, order, t2, k);
            }
        }
        assert(order.contains(start)) by {
            assert(order[0] == start);
        }
        assert(is_flood_region(b0, start, tset));
        lemma_flood_unique(b0, start, tset);
    }
    changed
}

} // verus!
