//! The search for a shortest path as a sequence of rounds on a growing list
//! of nodes. What the search returns is read off this model.

use vstd::prelude::*;
use crate::common::{Point, in_grid, is_free, adjacent, manhattan, cell, offset_point, width_of, height_of, grid_ok};

verus! {

/// A node of the search. All nodes of one search live in one growing vector,
/// in the order in which they were made; `index` is the node's place in it
/// and `parent` the place of the node it was reached from. `g` is the
/// number of steps from the start, `h` the Manhattan distance to the
/// target, `f` their sum. A node is open until it is taken for expansion,
/// and closed from then on.
#[derive(Copy, Clone, Debug)]
pub struct Node {
    pub index: usize,
    pub parent: Option<usize>,
    pub point: Point,
    pub g: usize,
    pub h: u128,
    pub f: u128,
    pub closed: bool,
}

/// A node of the search as the model of the search holds it: the same
/// fields, as numbers without a bound.
pub struct SearchNode {
    pub index: int,
    pub parent: Option<int>,
    pub point: Point,
    pub g: int,
    pub h: int,
    pub f: int,
    pub closed: bool,
}

impl View for Node {
    type V = SearchNode;

    open spec fn view(&self) -> SearchNode {
        SearchNode {
            index: self.index as int,
            parent: match self.parent {
                Some(p) => Some(p as int),
                None => None,
            },
            point: self.point,
            g: self.g as int,
            h: self.h as int,
            f: self.f as int,
            closed: self.closed,
        }
    }
}

/// The nodes of a search as the model of the search holds them.
pub open spec fn model_of(nodes: Seq<Node>) -> Seq<SearchNode> {
    Seq::new(nodes.len(), |i: int| nodes[i]@)
}


/// The step in `x` of the successor with number `d`. Successors are tried in
/// the order `(+1, 0)`, `(0, +1)`, `(-1, 0)`, `(0, -1)`.
pub open spec fn step_x(d: int) -> int {
    if d == 0 { 1 } else if d == 2 { -1 } else { 0 }
}

/// The step in `y` of the successor with number `d`.
pub open spec fn step_y(d: int) -> int {
    if d == 1 { 1 } else if d == 3 { -1 } else { 0 }
}

/// The successor with number `d` of the cell `p`: the neighbour in that
/// direction, if it lies on the board and is not blocked.
pub open spec fn successor(board: Seq<Seq<i8>>, p: Point, d: int) -> Option<Point> {
    match offset_point(p, width_of(board), height_of(board), step_x(d), step_y(d)) {
        Some(c) => if cell(board, c) != 1 { Some(c) } else { None },
        None => None,
    }
}

/// Some closed node stands on `p`.
pub open spec fn has_closed_at(nodes: Seq<SearchNode>, p: Point) -> bool {
    exists|j: int| 0 <= j < nodes.len() && (#[trigger] nodes[j]).closed && nodes[j].point == p
}

/// Some open node stands on `p` with a cost below `g`.
pub open spec fn has_cheaper_open_at(nodes: Seq<SearchNode>, p: Point, g: int) -> bool {
    exists|j: int| 0 <= j < nodes.len() && !(#[trigger] nodes[j]).closed && nodes[j].point == p && nodes[j].g < g
}

/// No node is open.
pub open spec fn none_open(nodes: Seq<SearchNode>) -> bool {
    forall|j: int| 0 <= j < nodes.len() ==> (#[trigger] nodes[j]).closed
}

/// The node `a` is taken before the node `b`: it has the smaller `f`, or the
/// same `f` and was made no later.
pub open spec fn goes_before(nodes: Seq<SearchNode>, a: int, b: int) -> bool {
    nodes[a].f < nodes[b].f || (nodes[a].f == nodes[b].f && a <= b)
}

/// `k` is the open node that is taken next.
pub open spec fn is_best(nodes: Seq<SearchNode>, k: int) -> bool {
    &&& 0 <= k < nodes.len()
    &&& !nodes[k].closed
    &&& forall|j: int| 0 <= j < nodes.len() && !(#[trigger] nodes[j]).closed ==> goes_before(nodes, k, j)
}

/// The open node that is taken next, where there is one.
pub open spec fn best(nodes: Seq<SearchNode>) -> int {
    choose|k: int| is_best(nodes, k)
}

/// The node made for the cell `c` when it is reached from the node `k`.
pub open spec fn child_of(nodes: Seq<SearchNode>, k: int, c: Point, target: Point) -> SearchNode {
    SearchNode {
        index: nodes.len() as int,
        parent: Some(k),
        point: c,
        g: nodes[k].g + 1,
        h: manhattan(c, target),
        f: nodes[k].g + 1 + manhattan(c, target),
        closed: false,
    }
}

/// The nodes after the successor with number `d` of the node `k` was tried:
/// it is dropped when it is blocked or off the board, when a closed node
/// stands on its cell, or when an open node stands there with a smaller
/// cost; else a new open node is added for it.
pub open spec fn add_child(
    board: Seq<Seq<i8>>,
    target: Point,
    nodes: Seq<SearchNode>,
    k: int,
    d: int,
) -> Seq<SearchNode> {
    match successor(board, nodes[k].point, d) {
        Some(c) => if has_closed_at(nodes, c) || has_cheaper_open_at(nodes, c, nodes[k].g + 1) {
            nodes
        } else {
            nodes.push(child_of(nodes, k, c, target))
        },
        None => nodes,
    }
}

/// The nodes after the node `k` was closed.
pub open spec fn close(nodes: Seq<SearchNode>, k: int) -> Seq<SearchNode> {
    nodes.update(k, SearchNode { closed: true, ..nodes[k] })
}

/// The nodes after the node `k` was closed and its four successors were
/// tried in their fixed order.
pub open spec fn expand(
    board: Seq<Seq<i8>>,
    target: Point,
    nodes: Seq<SearchNode>,
    k: int,
) -> Seq<SearchNode> {
    let closed = close(nodes, k);
    let first = add_child(board, target, closed, k, 0);
    let second = add_child(board, target, first, k, 1);
    let third = add_child(board, target, second, k, 2);
    add_child(board, target, third, k, 3)
}

/// The search has come to its end: nothing is open, or the node that is
/// taken next stands on the target.
pub open spec fn finished(nodes: Seq<SearchNode>, target: Point) -> bool {
    none_open(nodes) || nodes[best(nodes)].point == target
}

/// One round of the search: the best open node is expanded. A search that
/// has come to its end stays as it is.
pub open spec fn round(board: Seq<Seq<i8>>, target: Point, nodes: Seq<SearchNode>) -> Seq<SearchNode> {
    if finished(nodes, target) {
        nodes
    } else {
        expand(board, target, nodes, best(nodes))
    }
}

/// The nodes after `n` rounds.
pub open spec fn rounds(board: Seq<Seq<i8>>, target: Point, nodes: Seq<SearchNode>, n: nat) -> Seq<SearchNode>
    decreases n,
{
    if n == 0 {
        nodes
    } else {
        round(board, target, rounds(board, target, nodes, (n - 1) as nat))
    }
}

/// The cells from the first node to the node `k`, along the parents.
pub open spec fn path_to(nodes: Seq<SearchNode>, k: int) -> Seq<Point>
    decreases k,
{
    if 0 <= k < nodes.len() {
        match nodes[k].parent {
            Some(p) => if 0 <= p < k {
                path_to(nodes, p).push(nodes[k].point)
            } else {
                seq![nodes[k].point]
            },
            None => seq![nodes[k].point],
        }
    } else {
        Seq::empty()
    }
}

/// What a search that has come to its end returns: nothing where no node is
/// open, else the cells that lead to the best open node.
pub open spec fn outcome(nodes: Seq<SearchNode>) -> Option<Seq<Point>> {
    if none_open(nodes) {
        None
    } else {
        Some(path_to(nodes, best(nodes)))
    }
}

/// The nodes that a search begins with: one open node on `start`.
pub open spec fn initial(start: Point, target: Point) -> Seq<SearchNode> {
    seq![
        SearchNode {
            index: 0,
            parent: None,
            point: start,
            g: 0,
            h: manhattan(start, target),
            f: manhattan(start, target),
            closed: false,
        },
    ]
}

/// The search comes to its end after `n` rounds.
pub open spec fn ends_after(board: Seq<Seq<i8>>, start: Point, target: Point, n: nat) -> bool {
    finished(rounds(board, target, initial(start, target), n), target)
}

/// The path that the search returns for a board and two cells. It is a
/// function of these three alone: the node that is taken next and the order
/// of the successors are fixed, and nothing else enters.
pub open spec fn search_result(board: Seq<Seq<i8>>, start: Point, target: Point) -> Option<Seq<Point>> {
    if grid_ok(board) && in_grid(board, start) && in_grid(board, target) {
        let n = choose|n: nat| ends_after(board, start, target, n);
        outcome(rounds(board, target, initial(start, target), n))
    } else {
        None
    }
}

/// What holds of the node `i` throughout a search from `start` to `target`:
/// it knows its own place, stands on the board, carries the Manhattan
/// distance to the target as `h` and `g + h` as `f`; the first node stands
/// on `start` at cost 0, and every other node was reached in one step from
/// a closed node made before it, at one more than that node's cost, and
/// stands on a free cell.
pub open spec fn node_ok(
    board: Seq<Seq<i8>>,
    start: Point,
    target: Point,
    nodes: Seq<SearchNode>,
    i: int,
) -> bool {
    let n = nodes[i];
    &&& n.index == i
    &&& in_grid(board, n.point)
    &&& n.h == manhattan(n.point, target)
    &&& n.f == n.g + n.h
    &&& n.g <= i
    &&& match n.parent {
        None => i == 0 && n.point == start && n.g == 0,
        Some(p) => {
            &&& 0 <= p < i
            &&& nodes[p].closed
            &&& n.g == nodes[p].g + 1
            &&& adjacent(nodes[p].point, n.point)
            &&& is_free(board, n.point)
        },
    }
}

/// Every node of the search is as `node_ok` says.
pub open spec fn well_formed(
    board: Seq<Seq<i8>>,
    start: Point,
    target: Point,
    nodes: Seq<SearchNode>,
) -> bool {
    &&& nodes.len() >= 1
    &&& forall|i: int| 0 <= i < nodes.len() ==> #[trigger] node_ok(board, start, target, nodes, i)
}

/// A successor is a free cell of the board next to the cell it was taken
/// from.
pub(crate) proof fn lemma_successor_is_neighbour(board: Seq<Seq<i8>>, p: Point, d: int)
    requires
        grid_ok(board),
        in_grid(board, p),
        0 <= d < 4,
        successor(board, p, d) is Some,
    ensures
        is_free(board, successor(board, p, d)->0),
        adjacent(p, successor(board, p, d)->0),
{
}

/// Every free neighbour on the board is one of the four successors.
pub(crate) proof fn lemma_neighbour_is_successor(board: Seq<Seq<i8>>, p: Point, c: Point) -> (d: int)
    requires
        grid_ok(board),
        in_grid(board, p),
        is_free(board, c),
        adjacent(p, c),
    ensures
        0 <= d < 4,
        successor(board, p, d) == Some(c),
{
    if c.x == p.x + 1 {
        0
    } else if c.y == p.y + 1 {
        1
    } else if c.x + 1 == p.x {
        2
    } else {
        3
    }
}

/// The nodes that a search begins with are well formed.
pub(crate) proof fn lemma_initial_well_formed(board: Seq<Seq<i8>>, start: Point, target: Point)
    requires
        in_grid(board, start),
    ensures
        well_formed(board, start, target, initial(start, target)),
{
    assert(node_ok(board, start, target, initial(start, target), 0));
}

/// Closing a node keeps the nodes well formed.
pub(crate) proof fn lemma_close_well_formed(
    board: Seq<Seq<i8>>,
    start: Point,
    target: Point,
    nodes: Seq<SearchNode>,
    k: int,
)
    requires
        well_formed(board, start, target, nodes),
        0 <= k < nodes.len(),
    ensures
        well_formed(board, start, target, close(nodes, k)),
{
    let after = close(nodes, k);
    assert forall|i: int| 0 <= i < after.len() implies #[trigger] node_ok(board, start, target, after, i) by {
        assert(node_ok(board, start, target, nodes, i));
    }
}

/// Trying a successor of a closed node keeps the nodes well formed.
pub(crate) proof fn lemma_add_child_well_formed(
    board: Seq<Seq<i8>>,
    start: Point,
    target: Point,
    nodes: Seq<SearchNode>,
    k: int,
    d: int,
)
    requires
        grid_ok(board),
        in_grid(board, target),
        well_formed(board, start, target, nodes),
        0 <= k < nodes.len(),
        nodes[k].closed,
        0 <= d < 4,
    ensures
        well_formed(board, start, target, add_child(board, target, nodes, k, d)),
{
    let after = add_child(board, target, nodes, k, d);
    assert(node_ok(board, start, target, nodes, k));
    if after != nodes {
        let c = successor(board, nodes[k].point, d)->0;
        lemma_successor_is_neighbour(board, nodes[k].point, d);
        assert forall|i: int| 0 <= i < after.len() implies #[trigger] node_ok(board, start, target, after, i) by {
            if i < nodes.len() {
                assert(node_ok(board, start, target, nodes, i));
            } else {
                assert(after[i] == child_of(nodes, k, c, target));
            }
        }
    }
}

/// Trying a successor adds at most one node behind the others and changes
/// none of them.
pub(crate) proof fn lemma_add_child_keeps(
    board: Seq<Seq<i8>>,
    target: Point,
    nodes: Seq<SearchNode>,
    k: int,
    d: int,
)
    ensures
        nodes.len() <= add_child(board, target, nodes, k, d).len() <= nodes.len() + 1,
        forall|i: int| 0 <= i < nodes.len() ==> add_child(board, target, nodes, k, d)[i] == nodes[i],
{
}

/// The cells that lead to a node form a walk from `start` to the node's
/// cell, with one cell more than the node's cost.
pub(crate) proof fn lemma_path_is_walk(
    board: Seq<Seq<i8>>,
    start: Point,
    target: Point,
    nodes: Seq<SearchNode>,
    k: int,
)
    requires
        well_formed(board, start, target, nodes),
        0 <= k < nodes.len(),
    ensures
        crate::walk::connects(board, start, nodes[k].point, path_to(nodes, k)),
        path_to(nodes, k).len() == nodes[k].g + 1,
    decreases k,
{
    assert(node_ok(board, start, target, nodes, k));
    match nodes[k].parent {
        Some(p) => {
            lemma_path_is_walk(board, start, target, nodes, p);
            assert(node_ok(board, start, target, nodes, p));
            let before = path_to(nodes, p);
            let s = path_to(nodes, k);
            assert(s == before.push(nodes[k].point));
            assert forall|i: int| #![trigger s[i]] 1 <= i < s.len() implies is_free(board, s[i]) && adjacent(
                s[i - 1],
                s[i],
            ) by {
                if i < before.len() {
                    assert(s[i] == before[i]);
                    assert(s[i - 1] == before[i - 1]);
                } else {
                    assert(s[i - 1] == before[before.len() - 1]);
                }
            }
        },
        None => {},
    }
}

/// At most one node is the best open one.
pub(crate) proof fn lemma_best_unique(nodes: Seq<SearchNode>, a: int, b: int)
    requires
        is_best(nodes, a),
        is_best(nodes, b),
    ensures
        a == b,
{
    assert(goes_before(nodes, a, b));
    assert(goes_before(nodes, b, a));
}

/// Where `k` is the best open node, `best` names it.
pub(crate) proof fn lemma_best_is(nodes: Seq<SearchNode>, k: int)
    requires
        is_best(nodes, k),
    ensures
        best(nodes) == k,
        !none_open(nodes),
{
    lemma_best_unique(nodes, k, best(nodes));
}

/// A search that has come to its end stays as it is, however many rounds
/// follow.
pub(crate) proof fn lemma_rounds_stay(
    board: Seq<Seq<i8>>,
    target: Point,
    nodes: Seq<SearchNode>,
    n: nat,
    m: nat,
)
    requires
        finished(rounds(board, target, nodes, n), target),
        n <= m,
    ensures
        rounds(board, target, nodes, m) == rounds(board, target, nodes, n),
    decreases m,
{
    if n < m {
        lemma_rounds_stay(board, target, nodes, n, (m - 1) as nat);
    }
}

/// Once the search has come to its end after `n` rounds, `search_result` is
/// what is read off the nodes of that moment.
pub(crate) proof fn lemma_result_at_end(board: Seq<Seq<i8>>, start: Point, target: Point, n: nat)
    requires
        grid_ok(board),
        in_grid(board, start),
        in_grid(board, target),
        ends_after(board, start, target, n),
    ensures
        search_result(board, start, target) == outcome(rounds(board, target, initial(start, target), n)),
{
    let m = choose|m: nat| ends_after(board, start, target, m);
    if m <= n {
        lemma_rounds_stay(board, target, initial(start, target), m, n);
    } else {
        lemma_rounds_stay(board, target, initial(start, target), n, m);
    }
}

/// The search is repeatable: on boards that mark every cell alike, between
/// the same two cells, it returns the same path.
pub proof fn lemma_search_is_repeatable(a: Seq<Seq<i8>>, b: Seq<Seq<i8>>, start: Point, target: Point)
    requires
        a.len() == b.len(),
        forall|x: int| 0 <= x < a.len() ==> (#[trigger] a[x]).len() == b[x].len(),
        forall|x: int, y: int| 0 <= x < a.len() && 0 <= y < a[x].len() ==> a[x][y] == b[x][y],
    ensures
        search_result(a, start, target) == search_result(b, start, target),
{
    assert forall|x: int| 0 <= x < a.len() implies a[x] =~= b[x] by {}
    assert(a =~= b);
}

} // verus!
