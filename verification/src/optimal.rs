//! Why the search returns a shortest walk, and nothing only where there is no
//! walk.

use vstd::prelude::*;
use crate::common::{Point, in_grid, is_free, adjacent, grid_ok, cells};
use crate::progress::{depths_bounded, depth_bounded, total_weight};
use crate::search::{
    SearchNode, successor, has_closed_at, none_open, goes_before, is_best, add_child, close, expand,
    path_to, well_formed, node_ok, child_of, lemma_neighbour_is_successor, rounds, initial, finished, best,
    round, ends_after, search_result,
};
use crate::walk::{is_walk, connects, reachable, is_shortest, lemma_walk_prefix, lemma_walk_estimate};

verus! {

/// Some open node stands on `p` with a cost of at most `g`.
pub open spec fn has_open_within(nodes: Seq<SearchNode>, p: Point, g: int) -> bool {
    exists|m: int| 0 <= m < nodes.len() && !(#[trigger] nodes[m]).closed && nodes[m].point == p && nodes[m].g <= g
}

/// Some closed node stands on `p` with a cost of at most `g`.
pub open spec fn has_closed_within(nodes: Seq<SearchNode>, p: Point, g: int) -> bool {
    exists|q: int| 0 <= q < nodes.len() && (#[trigger] nodes[q]).closed && nodes[q].point == p && nodes[q].g <= g
}

/// The successor with number `d` of the closed node `j` is looked after: a
/// closed node stands on it, or an open one that costs at most one more
/// than `j`.
pub open spec fn covered(board: Seq<Seq<i8>>, nodes: Seq<SearchNode>, j: int, d: int) -> bool {
    match successor(board, nodes[j].point, d) {
        Some(c) => has_closed_at(nodes, c) || has_open_within(nodes, c, nodes[j].g + 1),
        None => true,
    }
}

/// Every successor of every closed node is looked after, but for those of
/// the node `k` from number `from` on. With `from == 4` none is left out.
pub open spec fn frontier_ok(board: Seq<Seq<i8>>, nodes: Seq<SearchNode>, k: int, from: int) -> bool {
    forall|j: int, d: int|
        0 <= j < nodes.len() && nodes[j].closed && 0 <= d < 4 && !(j == k && d >= from) ==> #[trigger] covered(
            board,
            nodes,
            j,
            d,
        )
}

/// On every closed cell stands a closed node that costs no more than any
/// walk from `start` to that cell has steps.
pub open spec fn closed_are_shortest(board: Seq<Seq<i8>>, start: Point, nodes: Seq<SearchNode>) -> bool {
    forall|p: Point, s: Seq<Point>|
        has_closed_at(nodes, p) && #[trigger] connects(board, start, p, s) ==> has_closed_within(nodes, p, s.len() - 1)
}

/// What holds between the rounds of a search that has not come to its end.
pub open spec fn search_inv(
    board: Seq<Seq<i8>>,
    start: Point,
    target: Point,
    nodes: Seq<SearchNode>,
) -> bool {
    &&& well_formed(board, start, target, nodes)
    &&& frontier_ok(board, nodes, 0, 4)
    &&& closed_are_shortest(board, start, nodes)
    &&& !has_closed_at(nodes, target)
}

/// An open node stands on one of the first `j + 1` cells of the walk `s`,
/// at a cost no higher than that cell's place in the walk.
pub open spec fn has_open_on(nodes: Seq<SearchNode>, s: Seq<Point>, j: int) -> bool {
    exists|i: int, m: int|
        #![trigger s[i], nodes[m]]
        0 <= i <= j && 0 <= m < nodes.len() && !nodes[m].closed && nodes[m].point == s[i] && nodes[m].g <= i
}

/// Along every walk from `start`, each cell is closed at a cost no higher
/// than its place in the walk, or an open node waits on the walk before or
/// at it.
pub(crate) proof fn lemma_frontier(
    board: Seq<Seq<i8>>,
    start: Point,
    target: Point,
    nodes: Seq<SearchNode>,
    s: Seq<Point>,
    j: int,
)
    requires
        grid_ok(board),
        well_formed(board, start, target, nodes),
        frontier_ok(board, nodes, 0, 4),
        closed_are_shortest(board, start, nodes),
        is_walk(board, s),
        s[0] == start,
        0 <= j < s.len(),
    ensures
        has_closed_within(nodes, s[j], j) || has_open_on(nodes, s, j),
    decreases j,
{
    assert(node_ok(board, start, target, nodes, 0));
    if j == 0 {
        if nodes[0].closed {
            assert(has_closed_within(nodes, s[0], 0));
        } else {
            assert(!nodes[0].closed && nodes[0].point == s[0] && nodes[0].g <= 0);
            assert(has_open_on(nodes, s, 0));
        }
    } else {
        lemma_frontier(board, start, target, nodes, s, j - 1);
        if has_open_on(nodes, s, j - 1) {
            let (i, m) = choose|i: int, m: int|
                #![trigger s[i], nodes[m]]
                0 <= i <= j - 1 && 0 <= m < nodes.len() && !nodes[m].closed && nodes[m].point == s[i] && nodes[m].g
                    <= i;
            assert(0 <= i <= j && 0 <= m < nodes.len() && !nodes[m].closed && nodes[m].point == s[i] && nodes[m].g <= i);
            assert(has_open_on(nodes, s, j));
        } else {
            let q = choose|q: int|
                0 <= q < nodes.len() && (#[trigger] nodes[q]).closed && nodes[q].point == s[j - 1] && nodes[q].g <= j
                    - 1;
            assert(node_ok(board, start, target, nodes, q));
            assert(is_free(board, s[j]) && adjacent(s[j - 1], s[j]));
            let d = lemma_neighbour_is_successor(board, s[j - 1], s[j]);
            assert(covered(board, nodes, q, d));
            if has_closed_at(nodes, s[j]) {
                lemma_walk_prefix(board, s, j + 1);
                assert(connects(board, start, s[j], s.subrange(0, j + 1)));
                assert(has_closed_within(nodes, s[j], j));
            } else {
                let m = choose|m: int|
                    0 <= m < nodes.len() && !(#[trigger] nodes[m]).closed && nodes[m].point == s[j] && nodes[m].g
                        <= nodes[q].g + 1;
                assert(0 <= j <= j && 0 <= m < nodes.len() && !nodes[m].closed && nodes[m].point == s[j] && nodes[m].g <= j);
                assert(has_open_on(nodes, s, j));
            }
        }
    }
}

/// The best open node, where its cell is not closed yet, costs no more than
/// any walk from `start` to its cell has steps.
pub(crate) proof fn lemma_best_is_shortest(
    board: Seq<Seq<i8>>,
    start: Point,
    target: Point,
    nodes: Seq<SearchNode>,
    k: int,
    s: Seq<Point>,
)
    requires
        grid_ok(board),
        well_formed(board, start, target, nodes),
        frontier_ok(board, nodes, 0, 4),
        closed_are_shortest(board, start, nodes),
        is_best(nodes, k),
        !has_closed_at(nodes, nodes[k].point),
        connects(board, start, nodes[k].point, s),
    ensures
        nodes[k].g <= s.len() - 1,
{
    let last = s.len() - 1;
    lemma_frontier(board, start, target, nodes, s, last);
    if has_closed_within(nodes, s[last], last) {
        let q = choose|q: int|
            0 <= q < nodes.len() && (#[trigger] nodes[q]).closed && nodes[q].point == s[last] && nodes[q].g <= last;
        assert(has_closed_at(nodes, nodes[k].point));
    } else {
        let (i, m) = choose|i: int, m: int|
            #![trigger s[i], nodes[m]]
            0 <= i <= last && 0 <= m < nodes.len() && !nodes[m].closed && nodes[m].point == s[i] && nodes[m].g <= i;
        lemma_walk_estimate(board, s, target, i, last);
        assert(node_ok(board, start, target, nodes, m));
        assert(node_ok(board, start, target, nodes, k));
        assert(goes_before(nodes, k, m));
    }
}

/// Where nothing is open and the target is not closed, no walk leads from
/// `start` to the target.
pub(crate) proof fn lemma_none_open_unreachable(
    board: Seq<Seq<i8>>,
    start: Point,
    target: Point,
    nodes: Seq<SearchNode>,
)
    requires
        grid_ok(board),
        search_inv(board, start, target, nodes),
        none_open(nodes),
    ensures
        !reachable(board, start, target),
{
    assert forall|s: Seq<Point>| !connects(board, start, target, s) by {
        if connects(board, start, target, s) {
            let last = s.len() - 1;
            lemma_frontier(board, start, target, nodes, s, last);
            if has_closed_within(nodes, s[last], last) {
                let q = choose|q: int|
                    0 <= q < nodes.len() && (#[trigger] nodes[q]).closed && nodes[q].point == s[last] && nodes[q].g
                        <= last;
                assert(has_closed_at(nodes, target));
            } else {
                let (i, m) = choose|i: int, m: int|
                    #![trigger s[i], nodes[m]]
                    0 <= i <= last && 0 <= m < nodes.len() && !nodes[m].closed && nodes[m].point == s[i] && nodes[m].g
                        <= i;
                assert(nodes[m].closed);
            }
        }
    }
}

/// Where the best open node stands on the target, the cells that lead to it
/// are a shortest walk from `start` to the target.
pub(crate) proof fn lemma_target_path_shortest(
    board: Seq<Seq<i8>>,
    start: Point,
    target: Point,
    nodes: Seq<SearchNode>,
    k: int,
)
    requires
        grid_ok(board),
        search_inv(board, start, target, nodes),
        is_best(nodes, k),
        nodes[k].point == target,
    ensures
        is_shortest(board, start, target, path_to(nodes, k)),
{
    crate::search::lemma_path_is_walk(board, start, target, nodes, k);
    assert forall|t: Seq<Point>| #[trigger] connects(board, start, target, t) implies path_to(nodes, k).len()
        <= t.len() by {
        lemma_best_is_shortest(board, start, target, nodes, k, t);
    }
}

/// The nodes that a search begins with meet `search_inv`.
pub(crate) proof fn lemma_initial_inv(board: Seq<Seq<i8>>, start: Point, target: Point)
    requires
        in_grid(board, start),
    ensures
        search_inv(board, start, target, initial(start, target)),
{
    crate::search::lemma_initial_well_formed(board, start, target);
}

/// What stands on a cell after a node was closed: a closed node stays, and
/// an open one stays or is the one that was closed.
proof fn lemma_closed_stay_close(nodes: Seq<SearchNode>, k: int, p: Point, g: int)
    requires
        0 <= k < nodes.len(),
    ensures
        has_closed_at(nodes, p) ==> has_closed_at(close(nodes, k), p),
        has_closed_within(nodes, p, g) ==> has_closed_within(close(nodes, k), p, g),
        has_open_within(nodes, p, g) ==> has_open_within(close(nodes, k), p, g) || has_closed_at(close(nodes, k), p),
        has_closed_at(close(nodes, k), p) ==> has_closed_at(nodes, p) || p == nodes[k].point,
{
    let after = close(nodes, k);
    if has_closed_at(nodes, p) {
        let j = choose|j: int| 0 <= j < nodes.len() && (#[trigger] nodes[j]).closed && nodes[j].point == p;
        assert(after[j].closed && after[j].point == p);
    }
    if has_closed_within(nodes, p, g) {
        let j = choose|j: int|
            0 <= j < nodes.len() && (#[trigger] nodes[j]).closed && nodes[j].point == p && nodes[j].g <= g;
        assert(after[j].closed && after[j].point == p && after[j].g <= g);
    }
    if has_open_within(nodes, p, g) {
        let m = choose|m: int|
            0 <= m < nodes.len() && !(#[trigger] nodes[m]).closed && nodes[m].point == p && nodes[m].g <= g;
        if m == k {
            assert(after[k].closed && after[k].point == p);
        } else {
            assert(!after[m].closed && after[m].point == p && after[m].g <= g);
        }
    }
    if has_closed_at(after, p) {
        let j = choose|j: int| 0 <= j < after.len() && (#[trigger] after[j]).closed && after[j].point == p;
        if j != k {
            assert(nodes[j].closed && nodes[j].point == p);
        }
    }
}

/// What stands on a cell after an open node was added: all that stood there
/// before, and no other closed node.
proof fn lemma_stay_push(nodes: Seq<SearchNode>, n: SearchNode, p: Point, g: int)
    requires
        !n.closed,
    ensures
        has_closed_at(nodes, p) == has_closed_at(nodes.push(n), p),
        has_closed_within(nodes, p, g) == has_closed_within(nodes.push(n), p, g),
        has_open_within(nodes, p, g) ==> has_open_within(nodes.push(n), p, g),
{
    let after = nodes.push(n);
    if has_closed_at(nodes, p) {
        let j = choose|j: int| 0 <= j < nodes.len() && (#[trigger] nodes[j]).closed && nodes[j].point == p;
        assert(after[j].closed && after[j].point == p);
    }
    if has_closed_at(after, p) {
        let j = choose|j: int| 0 <= j < after.len() && (#[trigger] after[j]).closed && after[j].point == p;
        assert(nodes[j].closed && nodes[j].point == p);
    }
    if has_closed_within(nodes, p, g) {
        let j = choose|j: int|
            0 <= j < nodes.len() && (#[trigger] nodes[j]).closed && nodes[j].point == p && nodes[j].g <= g;
        assert(after[j].closed && after[j].point == p && after[j].g <= g);
    }
    if has_closed_within(after, p, g) {
        let j = choose|j: int|
            0 <= j < after.len() && (#[trigger] after[j]).closed && after[j].point == p && after[j].g <= g;
        assert(nodes[j].closed && nodes[j].point == p && nodes[j].g <= g);
    }
    if has_open_within(nodes, p, g) {
        let m = choose|m: int|
            0 <= m < nodes.len() && !(#[trigger] nodes[m]).closed && nodes[m].point == p && nodes[m].g <= g;
        assert(!after[m].closed && after[m].point == p && after[m].g <= g);
    }
}

/// Closing the best open node, where it does not stand on the target, keeps
/// what `search_inv` says, but that the node's own successors are not
/// looked after yet.
pub(crate) proof fn lemma_close_inv(
    board: Seq<Seq<i8>>,
    start: Point,
    target: Point,
    nodes: Seq<SearchNode>,
    k: int,
)
    requires
        grid_ok(board),
        search_inv(board, start, target, nodes),
        is_best(nodes, k),
        nodes[k].point != target,
    ensures
        well_formed(board, start, target, close(nodes, k)),
        frontier_ok(board, close(nodes, k), k, 0),
        closed_are_shortest(board, start, close(nodes, k)),
        !has_closed_at(close(nodes, k), target),
{
    let after = close(nodes, k);
    crate::search::lemma_close_well_formed(board, start, target, nodes, k);
    lemma_closed_stay_close(nodes, k, target, 0);
    assert forall|j: int, d: int|
        0 <= j < after.len() && after[j].closed && 0 <= d < 4 && !(j == k && d >= 0) implies #[trigger] covered(
        board,
        after,
        j,
        d,
    ) by {
        assert(nodes[j].closed);
        assert(covered(board, nodes, j, d));
        match successor(board, nodes[j].point, d) {
            Some(c) => {
                lemma_closed_stay_close(nodes, k, c, nodes[j].g + 1);
            },
            None => {},
        }
    }
    assert forall|p: Point, s: Seq<Point>|
        has_closed_at(after, p) && #[trigger] connects(board, start, p, s) implies has_closed_within(
        after,
        p,
        s.len() - 1,
    ) by {
        lemma_closed_stay_close(nodes, k, p, s.len() - 1);
        if has_closed_at(nodes, p) {
            assert(has_closed_within(nodes, p, s.len() - 1));
        } else {
            lemma_best_is_shortest(board, start, target, nodes, k, s);
            assert(after[k].closed && after[k].point == p && after[k].g <= s.len() - 1);
        }
    }
}

/// Trying the successor with number `d` of the closed node `k` keeps what
/// `lemma_close_inv` left, and from then on that successor is looked after
/// too.
pub(crate) proof fn lemma_add_child_inv(
    board: Seq<Seq<i8>>,
    start: Point,
    target: Point,
    nodes: Seq<SearchNode>,
    k: int,
    d: int,
)
    requires
        grid_ok(board),
        in_grid(board, target),
        well_formed(board, start, target, nodes),
        frontier_ok(board, nodes, k, d),
        closed_are_shortest(board, start, nodes),
        !has_closed_at(nodes, target),
        0 <= k < nodes.len(),
        nodes[k].closed,
        0 <= d < 4,
    ensures
        well_formed(board, start, target, add_child(board, target, nodes, k, d)),
        frontier_ok(board, add_child(board, target, nodes, k, d), k, d + 1),
        closed_are_shortest(board, start, add_child(board, target, nodes, k, d)),
        !has_closed_at(add_child(board, target, nodes, k, d), target),
        add_child(board, target, nodes, k, d).len() >= nodes.len(),
        add_child(board, target, nodes, k, d)[k] == nodes[k],
{
    let after = add_child(board, target, nodes, k, d);
    crate::search::lemma_add_child_well_formed(board, start, target, nodes, k, d);
    assert(node_ok(board, start, target, nodes, k));
    if after == nodes {
        match successor(board, nodes[k].point, d) {
            Some(c) => {
                if !has_closed_at(nodes, c) {
                    let m = choose|m: int|
                        0 <= m < nodes.len() && !(#[trigger] nodes[m]).closed && nodes[m].point == c && nodes[m].g
                            < nodes[k].g + 1;
                    assert(has_open_within(nodes, c, nodes[k].g + 1));
                }
            },
            None => {},
        }
        assert(covered(board, nodes, k, d));
    } else {
        let c = successor(board, nodes[k].point, d)->0;
        let n = child_of(nodes, k, c, target);
        assert(after == nodes.push(n));
        lemma_stay_push(nodes, n, target, 0);
        assert forall|j: int, e: int|
            0 <= j < after.len() && after[j].closed && 0 <= e < 4 && !(j == k && e >= d + 1) implies #[trigger] covered(
            board,
            after,
            j,
            e,
        ) by {
            assert(after[j] == nodes[j]);
            if j == k && e == d {
                assert(after[nodes.len() as int] == n);
                assert(!after[nodes.len() as int].closed && after[nodes.len() as int].point == c
                    && after[nodes.len() as int].g <= nodes[k].g + 1);
                assert(has_open_within(after, c, nodes[k].g + 1));
            } else {
                assert(covered(board, nodes, j, e));
                match successor(board, nodes[j].point, e) {
                    Some(c2) => {
                        lemma_stay_push(nodes, n, c2, nodes[j].g + 1);
                    },
                    None => {},
                }
            }
        }
        assert forall|p: Point, s: Seq<Point>|
            has_closed_at(after, p) && #[trigger] connects(board, start, p, s) implies has_closed_within(
            after,
            p,
            s.len() - 1,
        ) by {
            lemma_stay_push(nodes, n, p, s.len() - 1);
        }
    }
}

/// One round of a search that has not come to its end keeps `search_inv`.
pub(crate) proof fn lemma_expand_inv(
    board: Seq<Seq<i8>>,
    start: Point,
    target: Point,
    nodes: Seq<SearchNode>,
    k: int,
)
    requires
        grid_ok(board),
        in_grid(board, target),
        search_inv(board, start, target, nodes),
        is_best(nodes, k),
        nodes[k].point != target,
    ensures
        search_inv(board, start, target, expand(board, target, nodes, k)),
{
    let s0 = close(nodes, k);
    let s1 = add_child(board, target, s0, k, 0);
    let s2 = add_child(board, target, s1, k, 1);
    let s3 = add_child(board, target, s2, k, 2);
    let s4 = add_child(board, target, s3, k, 3);
    crate::search::lemma_add_child_keeps(board, target, s0, k, 0);
    crate::search::lemma_add_child_keeps(board, target, s1, k, 1);
    crate::search::lemma_add_child_keeps(board, target, s2, k, 2);
    crate::search::lemma_add_child_keeps(board, target, s3, k, 3);
    lemma_close_inv(board, start, target, nodes, k);
    lemma_add_child_inv(board, start, target, s0, k, 0);
    lemma_add_child_inv(board, start, target, s1, k, 1);
    lemma_add_child_inv(board, start, target, s2, k, 2);
    lemma_add_child_inv(board, start, target, s3, k, 3);
    assert forall|j: int, d: int|
        0 <= j < s4.len() && s4[j].closed && 0 <= d < 4 && !(j == 0 && d >= 4) implies #[trigger] covered(
        board,
        s4,
        j,
        d,
    ) by {
        assert(!(j == k && d >= 4));
    }
}

/// Where a node is open, one of the open nodes is the best.
pub(crate) proof fn lemma_best_exists(nodes: Seq<SearchNode>)
    requires
        !none_open(nodes),
    ensures
        is_best(nodes, best(nodes)),
{
    let k = lemma_best_below(nodes, nodes.len() as int);
}

/// The best of the open nodes among the first `n`, where one of them is
/// open.
proof fn lemma_best_below(nodes: Seq<SearchNode>, n: int) -> (k: int)
    requires
        0 <= n <= nodes.len(),
        exists|j: int| 0 <= j < n && !(#[trigger] nodes[j]).closed,
    ensures
        0 <= k < n,
        !nodes[k].closed,
        forall|j: int| 0 <= j < n && !(#[trigger] nodes[j]).closed ==> goes_before(nodes, k, j),
        n == nodes.len() ==> is_best(nodes, k),
    decreases n,
{
    let last = n - 1;
    if exists|j: int| 0 <= j < last && !(#[trigger] nodes[j]).closed {
        let k = lemma_best_below(nodes, last);
        if !nodes[last].closed && nodes[last].f < nodes[k].f {
            last
        } else {
            k
        }
    } else {
        last
    }
}

/// The search comes to its end: from the nodes after `n` rounds, where they
/// are as the rounds leave them, some number of rounds leads to nodes with
/// nothing open or with the best open node on the target.
pub(crate) proof fn lemma_search_ends(board: Seq<Seq<i8>>, start: Point, target: Point, n: nat) -> (m: nat)
    requires
        grid_ok(board),
        in_grid(board, target),
        search_inv(board, start, target, rounds(board, target, initial(start, target), n)),
        depths_bounded(board, rounds(board, target, initial(start, target), n)),
    ensures
        ends_after(board, start, target, m),
        search_inv(board, start, target, rounds(board, target, initial(start, target), m)),
    decreases total_weight(rounds(board, target, initial(start, target), n), cells(board)),
{
    let nodes = rounds(board, target, initial(start, target), n);
    if finished(nodes, target) {
        n
    } else {
        lemma_best_exists(nodes);
        let k = best(nodes);
        crate::progress::lemma_expand_keeps(board, start, target, nodes, k);
        lemma_expand_inv(board, start, target, nodes, k);
        assert(rounds(board, target, initial(start, target), n + 1) == round(board, target, nodes));
        lemma_search_ends(board, start, target, n + 1)
    }
}

/// What the search returns between two cells of a board: a shortest walk
/// from the one to the other, and nothing only where no walk leads from
/// the one to the other.
pub proof fn lemma_search_result(board: Seq<Seq<i8>>, start: Point, target: Point)
    requires
        grid_ok(board),
        in_grid(board, start),
        in_grid(board, target),
    ensures
        match search_result(board, start, target) {
            Some(p) => is_shortest(board, start, target, p),
            None => !reachable(board, start, target),
        },
{
    lemma_initial_inv(board, start, target);
    let first = initial(start, target);
    assert(depth_bounded(board, first, 0));
    let m = lemma_search_ends(board, start, target, 0);
    let nodes = rounds(board, target, first, m);
    crate::search::lemma_result_at_end(board, start, target, m);
    if none_open(nodes) {
        lemma_none_open_unreachable(board, start, target, nodes);
    } else {
        lemma_best_exists(nodes);
        lemma_target_path_shortest(board, start, target, nodes, best(nodes));
    }
}

} // verus!
