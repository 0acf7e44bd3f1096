//! The bookkeeping of the route search: the states it has reached, each
//! with the state it was reached from, and the order in which the states
//! that are still open are served.

use vstd::prelude::*;
use std::collections::VecDeque;
use crate::data::Halite;
use crate::data::Pos;
use crate::data::Time;
use crate::schedule::is_route;
use crate::torus::is_size;
use crate::torus::on_grid;
use crate::torus::torus_dist;

verus! {

/// A state that the search has reached: a cell at a turn, with the
/// resource the unit would still carry there.
#[derive(Copy, Clone, Debug, PartialEq, Eq, Structural)]
pub struct Node {
    /// The cell.
    pub pos: Pos,
    /// What the unit still carries on arrival.
    pub halite: Halite,
    /// Cost of the way here plus the estimate of what is left.
    pub heuristic: u64,
    /// The turn of arrival.
    pub round: Time,
    /// Cost of the way here.
    pub cost: u64,
    /// Place, among the states reached, of the one this was reached from.
    pub parent: usize,
}

/// Whether cell `p` comes after cell `q`: by column, then by row.
pub open spec fn pos_after(p: Pos, q: Pos) -> bool {
    p.0 > q.0 || (p.0 == q.0 && p.1 > q.1)
}

/// Whether `a` is served strictly before `b`: the lower estimate first,
/// then the lower load, then the earlier turn, then the later cell.
pub open spec fn precedes(a: Node, b: Node) -> bool {
    ||| a.heuristic < b.heuristic
    ||| a.heuristic == b.heuristic && a.halite < b.halite
    ||| a.heuristic == b.heuristic && a.halite == b.halite && a.round < b.round
    ||| a.heuristic == b.heuristic && a.halite == b.halite && a.round == b.round && pos_after(
        a.pos,
        b.pos,
    )
}

/// Whether `a` is served strictly before `b`.
pub fn comes_first(a: &Node, b: &Node) -> (first: bool)
    ensures
        first == precedes(*a, *b),
{
    if a.heuristic != b.heuristic {
        a.heuristic < b.heuristic
    } else if a.halite != b.halite {
        a.halite < b.halite
    } else if a.round != b.round {
        a.round < b.round
    } else {
        a.pos.0 > b.pos.0 || (a.pos.0 == b.pos.0 && a.pos.1 > b.pos.1)
    }
}

/// The order of service is strict: no state precedes itself, and of two
/// states at most one precedes the other; it is transitive; and two states
/// of which neither precedes the other agree on all that the order reads.
pub proof fn lemma_precedes_order(a: Node, b: Node, c: Node)
    ensures
        !precedes(a, a),
        !(precedes(a, b) && precedes(b, a)),
        precedes(a, b) && precedes(b, c) ==> precedes(a, c),
        !precedes(a, b) && !precedes(b, a) ==> a.heuristic == b.heuristic && a.halite == b.halite
            && a.round == b.round && a.pos == b.pos,
{
}

/// Place, in the list `open` of places among `nodes`, of the state served
/// next among the first `n`: the earliest that none of them precedes.
pub open spec fn best_of(nodes: Seq<Node>, open: Seq<usize>, n: int) -> int
    decreases n,
{
    if n <= 1 {
        0
    } else {
        let best = best_of(nodes, open, n - 1);
        if precedes(nodes[open[n - 1] as int], nodes[open[best] as int]) {
            n - 1
        } else {
            best
        }
    }
}

/// No open state precedes the one that `best_of` picks, and those before
/// it in the list come strictly after it.
pub proof fn lemma_best_of(nodes: Seq<Node>, open: Seq<usize>, n: int)
    requires
        1 <= n <= open.len(),
    ensures
        0 <= best_of(nodes, open, n) < n,
        forall|j: int|
            0 <= j < n ==> !precedes(
                nodes[(#[trigger] open[j]) as int],
                nodes[open[best_of(nodes, open, n)] as int],
            ),
        forall|j: int|
            0 <= j < best_of(nodes, open, n) ==> precedes(
                nodes[open[best_of(nodes, open, n)] as int],
                nodes[(#[trigger] open[j]) as int],
            ),
    decreases n,
{
    if n > 1 {
        lemma_best_of(nodes, open, n - 1);
        let prev = best_of(nodes, open, n - 1);
        let last = nodes[open[n - 1] as int];
        assert forall|j: int| 0 <= j < n implies !precedes(
            nodes[(#[trigger] open[j]) as int],
            nodes[open[best_of(nodes, open, n)] as int],
        ) by {
            lemma_precedes_order(nodes[open[j] as int], last, nodes[open[prev] as int]);
            lemma_precedes_order(nodes[open[j] as int], nodes[open[prev] as int], last);
        }
        assert forall|j: int| 0 <= j < best_of(nodes, open, n) implies precedes(
            nodes[open[best_of(nodes, open, n)] as int],
            nodes[(#[trigger] open[j]) as int],
        ) by {
            let other = nodes[open[j] as int];
            let kept = nodes[open[prev] as int];
            if best_of(nodes, open, n) == n - 1 {
                assert(!precedes(other, kept));
                lemma_precedes_order(last, kept, other);
                lemma_precedes_order(other, kept, last);
            }
        }
    }
}

/// Takes the state served next out of the list of open states and returns
/// its place among `nodes`. The last open state moves to the place that
/// becomes free.
pub fn pop_best(nodes: &Vec<Node>, open: &mut Vec<usize>) -> (picked: usize)
    requires
        old(open)@.len() > 0,
        forall|j: int| 0 <= j < old(open)@.len() ==> (#[trigger] old(open)@[j]) < nodes@.len(),
    ensures
        picked == old(open)@[best_of(nodes@, old(open)@, old(open)@.len() as int)],
        picked < nodes@.len(),
        final(open)@ == old(open)@.update(
            best_of(nodes@, old(open)@, old(open)@.len() as int),
            old(open)@.last(),
        ).drop_last(),
        final(open)@.len() == old(open)@.len() - 1,
        forall|j: int| 0 <= j < final(open)@.len() ==> (#[trigger] final(open)@[j]) < nodes@.len(),
        forall|j: int|
            0 <= j < old(open)@.len() ==> !precedes(
                nodes@[(#[trigger] old(open)@[j]) as int],
                nodes@[picked as int],
            ),
{
    let mut best: usize = 0;
    let mut n: usize = 1;
    while n < open.len()
        invariant
            1 <= n <= open@.len(),
            open@ == old(open)@,
            best == best_of(nodes@, open@, n as int),
            0 <= best < n,
            forall|j: int| 0 <= j < open@.len() ==> (#[trigger] open@[j]) < nodes@.len(),
        decreases open@.len() - n,
    {
        assert(open@[n as int] < nodes@.len());
        assert(open@[best as int] < nodes@.len());
        if comes_first(&nodes[open[n]], &nodes[open[best]]) {
            best = n;
        }
        n += 1;
        proof {
            lemma_best_of(nodes@, open@, n as int);
        }
    }
    proof {
        lemma_best_of(nodes@, open@, n as int);
    }
    assert(open@[best as int] < nodes@.len());
    let picked = open[best];
    let last = open.len() - 1;
    assert(open@[last as int] < nodes@.len());
    let moved = open[last];
    open.set(best, moved);
    let _ = open.pop();
    assert(open@ =~= old(open)@.update(best as int, old(open)@.last()).drop_last());
    picked
}

/// The states on the way from the first state reached to the one at place
/// `i`, without the first: each as a (cell, turn) pair.
pub open spec fn path_to(nodes: Seq<Node>, i: int) -> Seq<(Pos, Time)>
    decreases i,
{
    if i <= 0 || i >= nodes.len() || nodes[i].parent >= i {
        Seq::empty()
    } else {
        path_to(nodes, nodes[i].parent as int).push((nodes[i].pos, nodes[i].round))
    }
}

/// Whether the state at place `i` was reached from an earlier one, one
/// turn before and at most one step away on the `w` by `h` grid.
pub open spec fn linked(nodes: Seq<Node>, w: int, h: int, i: int) -> bool {
    let n = nodes[i];
    let p = nodes[n.parent as int];
    &&& n.parent < i
    &&& n.round == p.round + 1
    &&& on_grid(w, h, n.pos)
    &&& torus_dist(w, h, p.pos, n.pos) <= 1
}

/// Whether the states reached form a tree of moves on the `w` by `h` grid
/// that starts from `start` at turn `round`: each later state was reached
/// from an earlier one, one turn before and at most one step away.
pub open spec fn is_tree(nodes: Seq<Node>, w: int, h: int, start: Pos, round: Time) -> bool {
    &&& nodes.len() > 0
    &&& nodes[0].pos == start
    &&& nodes[0].round == round
    &&& forall|i: int| 0 < i < nodes.len() ==> #[trigger] linked(nodes, w, h, i)
}

/// In a tree of moves, the way to a state other than the first is a route:
/// it begins one turn after the start and at most one step from it, and
/// it ends with that state.
pub proof fn lemma_path_is_route(nodes: Seq<Node>, w: int, h: int, start: Pos, round: Time, i: int)
    requires
        is_size(w, h),
        on_grid(w, h, start),
        round >= 0,
        is_tree(nodes, w, h, start, round),
        0 < i < nodes.len(),
    ensures
        is_route(w, h, path_to(nodes, i)),
        path_to(nodes, i).len() == nodes[i].round - round,
        path_to(nodes, i)[0].1 == round + 1,
        torus_dist(w, h, start, path_to(nodes, i)[0].0) <= 1,
        path_to(nodes, i).last() == (nodes[i].pos, nodes[i].round),
    decreases i,
{
    let n = nodes[i];
    let p = n.parent as int;
    let way = path_to(nodes, i);
    assert(linked(nodes, w, h, i));
    if p == 0 {
        assert(path_to(nodes, 0) =~= Seq::<(Pos, Time)>::empty());
        assert(way =~= seq![(n.pos, n.round)]);
    } else {
        lemma_path_is_route(nodes, w, h, start, round, p);
        let before = path_to(nodes, p);
        assert(way == before.push((n.pos, n.round)));
        assert forall|k: int| 0 <= k < way.len() - 1 implies (#[trigger] way[k + 1]).1 == way[k].1
            + 1 && torus_dist(w, h, way[k].0, way[k + 1].0) <= 1 by {
            if k + 1 < before.len() {
                assert(way[k + 1] == before[k + 1]);
                assert(way[k] == before[k]);
            } else {
                assert(way[k] == before.last());
            }
        }
        assert forall|k: int| 0 <= k < way.len() implies on_grid(w, h, (#[trigger] way[k]).0)
            && way[k].1 >= 0 by {
            if k < before.len() {
                assert(way[k] == before[k]);
            }
        }
    }
}

/// Every entry of the way to a state is one of the states reached, other
/// than the first.
pub proof fn lemma_path_entries(nodes: Seq<Node>, i: int, k: int)
    requires
        0 <= k < path_to(nodes, i).len(),
    ensures
        exists|j: int|
            0 < j < nodes.len() && path_to(nodes, i)[k] == ((#[trigger] nodes[j]).pos, nodes[j].round),
    decreases i,
{
    let n = nodes[i];
    let before = path_to(nodes, n.parent as int);
    if k < before.len() {
        lemma_path_entries(nodes, n.parent as int, k);
        let j = choose|j: int|
            0 < j < nodes.len() && before[k] == ((#[trigger] nodes[j]).pos, nodes[j].round);
        assert(path_to(nodes, i)[k] == (nodes[j].pos, nodes[j].round));
    } else {
        assert(path_to(nodes, i)[k] == (nodes[i].pos, nodes[i].round));
    }
}

/// Writes out the way from the first state reached to the one at place
/// `last`, in the order in which the unit will pass it.
pub fn trace(nodes: &Vec<Node>, last: usize) -> (way: VecDeque<(Pos, Time)>)
    requires
        0 < last < nodes@.len(),
        forall|i: int| 0 < i < nodes@.len() ==> (#[trigger] nodes@[i]).parent < i,
    ensures
        way@ == path_to(nodes@, last as int),
{
    let mut way: VecDeque<(Pos, Time)> = VecDeque::new();
    let mut i = last;
    while i > 0
        invariant
            0 <= i <= last < nodes@.len(),
            forall|i: int| 0 < i < nodes@.len() ==> (#[trigger] nodes@[i]).parent < i,
            path_to(nodes@, i as int) + way@ == path_to(nodes@, last as int),
        decreases i,
    {
        let node = nodes[i];
        let ghost rest = way@;
        way.push_front((node.pos, node.round));
        proof {
            let up = path_to(nodes@, node.parent as int);
            assert(path_to(nodes@, i as int) == up.push((node.pos, node.round)));
            assert(up.push((node.pos, node.round)) + rest =~= up + way@);
        }
        i = node.parent;
    }
    assert(path_to(nodes@, 0) + way@ =~= way@);
    way
}

} // verus!
