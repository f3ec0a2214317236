//! Why the search comes to an end: no node lies deeper than the board has
//! cells, and each round makes the open nodes weigh less.

use vstd::prelude::*;
use vstd::set_lib::{lemma_int_range, lemma_len_subset, set_int_range};
use crate::common::{Point, in_grid, grid_ok, width_of, height_of, cells};
use crate::search::{
    SearchNode, has_closed_at, close, add_child, child_of, expand, successor, well_formed, node_ok,
};

verus! {

/// A number for each cell of the board, different for different cells.
pub open spec fn code(board: Seq<Seq<i8>>, p: Point) -> int {
    p.x * height_of(board) + p.y
}

/// The numbers of the cells on which a closed node stands.
pub open spec fn closed_codes(board: Seq<Seq<i8>>, nodes: Seq<SearchNode>) -> Set<int> {
    Set::new(
        |c: int| exists|j: int| 0 <= j < nodes.len() && (#[trigger] nodes[j]).closed && code(board, nodes[j].point) == c,
    )
}

/// 1 where a closed node stands on `p`, else 0.
pub open spec fn closed_mark(nodes: Seq<SearchNode>, p: Point) -> int {
    if has_closed_at(nodes, p) { 1 } else { 0 }
}

/// The cost of the node `i` is at most the number of closed cells other
/// than its own.
pub open spec fn depth_bounded(board: Seq<Seq<i8>>, nodes: Seq<SearchNode>, i: int) -> bool {
    nodes[i].g + closed_mark(nodes, nodes[i].point) <= closed_codes(board, nodes).len()
}

/// Every node's cost is bounded as `depth_bounded` says.
pub open spec fn depths_bounded(board: Seq<Seq<i8>>, nodes: Seq<SearchNode>) -> bool {
    forall|i: int| 0 <= i < nodes.len() ==> #[trigger] depth_bounded(board, nodes, i)
}

/// The weight of an open node that may still go `d` steps deeper: five
/// times the weight of each of its at most four children.
pub open spec fn weight(d: nat) -> nat
    decreases d,
{
    if d == 0 { 1 } else { 5 * weight((d - 1) as nat) }
}

/// The weight of a node on a board of `total` cells: nothing once it is
/// closed.
pub open spec fn node_weight(n: SearchNode, total: int) -> nat {
    if n.closed { 0 } else { weight((total - n.g) as nat) }
}

/// The weight of all nodes together. Each round of the search makes it
/// smaller.
pub open spec fn total_weight(nodes: Seq<SearchNode>, total: int) -> nat
    decreases nodes.len(),
{
    if nodes.len() == 0 {
        0
    } else {
        total_weight(nodes.drop_last(), total) + node_weight(nodes.last(), total)
    }
}

/// The number of a cell of the board lies below the number of cells.
pub(crate) proof fn lemma_code_in_range(board: Seq<Seq<i8>>, p: Point)
    requires
        in_grid(board, p),
    ensures
        0 <= code(board, p) < cells(board),
{
    let w = width_of(board);
    let h = height_of(board);
    let x = p.x as int;
    let y = p.y as int;
    assert(x * h + y < w * h) by (nonlinear_arith)
        requires
            0 <= x < w,
            0 <= y < h,
    ;
    assert(x * h >= 0) by (nonlinear_arith)
        requires
            0 <= x,
            0 <= h,
    ;
}

/// Different cells of the board have different numbers.
pub(crate) proof fn lemma_code_injective(board: Seq<Seq<i8>>, p: Point, q: Point)
    requires
        in_grid(board, p),
        in_grid(board, q),
        code(board, p) == code(board, q),
    ensures
        p == q,
{
    let h = height_of(board);
    let px = p.x as int;
    let py = p.y as int;
    let qx = q.x as int;
    let qy = q.y as int;
    assert(px == qx) by (nonlinear_arith)
        requires
            px * h + py == qx * h + qy,
            0 <= py < h,
            0 <= qy < h,
            0 <= px,
            0 <= qx,
    ;
}

/// The closed cells are finitely many, and no more than the board has.
pub(crate) proof fn lemma_closed_codes_bounded(
    board: Seq<Seq<i8>>,
    start: Point,
    target: Point,
    nodes: Seq<SearchNode>,
)
    requires
        well_formed(board, start, target, nodes),
    ensures
        closed_codes(board, nodes).finite(),
        closed_codes(board, nodes).len() <= cells(board),
{
    let all = set_int_range(0, cells(board));
    assert(node_ok(board, start, target, nodes, 0));
    lemma_code_in_range(board, nodes[0].point);
    lemma_int_range(0, cells(board));
    assert forall|c: int| closed_codes(board, nodes).contains(c) implies all.contains(c) by {
        let j = choose|j: int|
            0 <= j < nodes.len() && (#[trigger] nodes[j]).closed && code(board, nodes[j].point) == c;
        assert(node_ok(board, start, target, nodes, j));
        lemma_code_in_range(board, nodes[j].point);
    }
    lemma_len_subset(closed_codes(board, nodes), all);
}

/// A closed node stands on a cell of the board exactly if the cell's number
/// is among the closed ones.
pub(crate) proof fn lemma_closed_code(
    board: Seq<Seq<i8>>,
    start: Point,
    target: Point,
    nodes: Seq<SearchNode>,
    p: Point,
)
    requires
        well_formed(board, start, target, nodes),
        in_grid(board, p),
    ensures
        has_closed_at(nodes, p) == closed_codes(board, nodes).contains(code(board, p)),
{
    if closed_codes(board, nodes).contains(code(board, p)) {
        let j = choose|j: int|
            0 <= j < nodes.len() && (#[trigger] nodes[j]).closed && code(board, nodes[j].point) == code(board, p);
        assert(node_ok(board, start, target, nodes, j));
        lemma_code_injective(board, nodes[j].point, p);
    }
}

/// Closing the node `k` adds its cell to the closed ones.
pub(crate) proof fn lemma_closed_codes_close(board: Seq<Seq<i8>>, nodes: Seq<SearchNode>, k: int)
    requires
        0 <= k < nodes.len(),
    ensures
        closed_codes(board, close(nodes, k)) == closed_codes(board, nodes).insert(code(board, nodes[k].point)),
{
    let after = close(nodes, k);
    let a = closed_codes(board, after);
    let b = closed_codes(board, nodes).insert(code(board, nodes[k].point));
    assert forall|c: int| a.contains(c) implies b.contains(c) by {
        let j = choose|j: int|
            0 <= j < after.len() && (#[trigger] after[j]).closed && code(board, after[j].point) == c;
        if j != k {
            assert(nodes[j].closed);
        }
    }
    assert forall|c: int| b.contains(c) implies a.contains(c) by {
        if c == code(board, nodes[k].point) {
            assert(after[k].closed);
        } else {
            let j = choose|j: int|
                0 <= j < nodes.len() && (#[trigger] nodes[j]).closed && code(board, nodes[j].point) == c;
            assert(after[j].closed);
        }
    }
    assert(a =~= b);
}

/// A new open node leaves the closed cells as they are.
pub(crate) proof fn lemma_closed_codes_push(board: Seq<Seq<i8>>, nodes: Seq<SearchNode>, n: SearchNode)
    requires
        !n.closed,
    ensures
        closed_codes(board, nodes.push(n)) == closed_codes(board, nodes),
        forall|p: Point| has_closed_at(nodes.push(n), p) == has_closed_at(nodes, p),
{
    let after = nodes.push(n);
    let a = closed_codes(board, after);
    let b = closed_codes(board, nodes);
    assert forall|c: int| a.contains(c) implies b.contains(c) by {
        let j = choose|j: int|
            0 <= j < after.len() && (#[trigger] after[j]).closed && code(board, after[j].point) == c;
        assert(nodes[j].closed);
    }
    assert forall|c: int| b.contains(c) implies a.contains(c) by {
        let j = choose|j: int|
            0 <= j < nodes.len() && (#[trigger] nodes[j]).closed && code(board, nodes[j].point) == c;
        assert(after[j].closed);
    }
    assert(a =~= b);
    assert forall|p: Point| has_closed_at(after, p) == has_closed_at(nodes, p) by {
        if has_closed_at(after, p) {
            let j = choose|j: int|
                0 <= j < after.len() && (#[trigger] after[j]).closed && after[j].point == p;
            assert(nodes[j].closed);
        }
        if has_closed_at(nodes, p) {
            let j = choose|j: int|
                0 <= j < nodes.len() && (#[trigger] nodes[j]).closed && nodes[j].point == p;
            assert(after[j].closed);
        }
    }
}

/// Closing a node keeps every cost bounded.
pub(crate) proof fn lemma_close_depths(
    board: Seq<Seq<i8>>,
    start: Point,
    target: Point,
    nodes: Seq<SearchNode>,
    k: int,
)
    requires
        well_formed(board, start, target, nodes),
        depths_bounded(board, nodes),
        0 <= k < nodes.len(),
    ensures
        depths_bounded(board, close(nodes, k)),
{
    let after = close(nodes, k);
    let p = nodes[k].point;
    crate::search::lemma_close_well_formed(board, start, target, nodes, k);
    lemma_closed_codes_bounded(board, start, target, nodes);
    lemma_closed_codes_close(board, nodes, k);
    assert(node_ok(board, start, target, nodes, k));
    lemma_closed_code(board, start, target, nodes, p);
    assert forall|i: int| 0 <= i < after.len() implies #[trigger] depth_bounded(board, after, i) by {
        assert(depth_bounded(board, nodes, i));
        assert(node_ok(board, start, target, nodes, i));
        let q = nodes[i].point;
        assert(after[i].point == q);
        assert(after[i].g == nodes[i].g);
        if has_closed_at(nodes, p) {
            // the cell was closed before: nothing changes
            if has_closed_at(after, q) && !has_closed_at(nodes, q) {
                let j = choose|j: int|
                    0 <= j < after.len() && (#[trigger] after[j]).closed && after[j].point == q;
                if j != k {
                    assert(nodes[j].closed);
                }
            }
        } else {
            if has_closed_at(nodes, q) {
                let j = choose|j: int|
                    0 <= j < nodes.len() && (#[trigger] nodes[j]).closed && nodes[j].point == q;
                assert(after[j].closed);
            }
        }
    }
}

/// Trying a successor of a closed node keeps every cost bounded.
pub(crate) proof fn lemma_add_child_depths(
    board: Seq<Seq<i8>>,
    start: Point,
    target: Point,
    nodes: Seq<SearchNode>,
    k: int,
    d: int,
)
    requires
        grid_ok(board),
        well_formed(board, start, target, nodes),
        depths_bounded(board, nodes),
        0 <= k < nodes.len(),
        nodes[k].closed,
        0 <= d < 4,
    ensures
        depths_bounded(board, add_child(board, target, nodes, k, d)),
{
    let after = add_child(board, target, nodes, k, d);
    if after != nodes {
        let c = successor(board, nodes[k].point, d)->0;
        let n = child_of(nodes, k, c, target);
        lemma_closed_codes_push(board, nodes, n);
        assert(depth_bounded(board, nodes, k));
        assert(node_ok(board, start, target, nodes, k));
        assert forall|i: int| 0 <= i < after.len() implies #[trigger] depth_bounded(board, after, i) by {
            if i < nodes.len() {
                assert(depth_bounded(board, nodes, i));
            } else {
                assert(after[i] == n);
                assert(has_closed_at(nodes, nodes[k].point));
            }
        }
    }
}

/// A closed node's cost is below the number of cells of the board.
pub(crate) proof fn lemma_closed_depth(
    board: Seq<Seq<i8>>,
    start: Point,
    target: Point,
    nodes: Seq<SearchNode>,
    k: int,
)
    requires
        well_formed(board, start, target, nodes),
        depths_bounded(board, nodes),
        0 <= k < nodes.len(),
        nodes[k].closed,
    ensures
        nodes[k].g + 1 <= cells(board),
{
    lemma_closed_codes_bounded(board, start, target, nodes);
    assert(depth_bounded(board, nodes, k));
    assert(has_closed_at(nodes, nodes[k].point));
}

/// Every weight is at least one.
pub(crate) proof fn lemma_weight_positive(d: nat)
    ensures
        weight(d) >= 1,
    decreases d,
{
    if d > 0 {
        lemma_weight_positive((d - 1) as nat);
    }
}

/// A new node adds its weight to the weight of all.
pub(crate) proof fn lemma_weight_push(nodes: Seq<SearchNode>, n: SearchNode, total: int)
    ensures
        total_weight(nodes.push(n), total) == total_weight(nodes, total) + node_weight(n, total),
{
    assert(nodes.push(n).drop_last() =~= nodes);
}

/// Where one node is replaced, its weight is replaced in the weight of all.
pub(crate) proof fn lemma_weight_update(nodes: Seq<SearchNode>, k: int, n: SearchNode, total: int)
    requires
        0 <= k < nodes.len(),
    ensures
        total_weight(nodes.update(k, n), total) + node_weight(nodes[k], total) == total_weight(nodes, total)
            + node_weight(n, total),
    decreases nodes.len(),
{
    let after = nodes.update(k, n);
    if k == nodes.len() - 1 {
        assert(after.drop_last() =~= nodes.drop_last());
    } else {
        lemma_weight_update(nodes.drop_last(), k, n, total);
        assert(after.drop_last() =~= nodes.drop_last().update(k, n));
    }
}

/// Trying a successor of the node `k` adds at most the weight of one child
/// of `k`, behind the nodes that were there.
pub(crate) proof fn lemma_weight_add_child(
    board: Seq<Seq<i8>>,
    target: Point,
    nodes: Seq<SearchNode>,
    k: int,
    d: int,
    total: int,
)
    requires
        0 <= k < nodes.len(),
        nodes[k].g + 1 <= total,
    ensures
        total_weight(add_child(board, target, nodes, k, d), total) <= total_weight(nodes, total) + weight(
            (total - nodes[k].g - 1) as nat,
        ),
        add_child(board, target, nodes, k, d).len() >= nodes.len(),
        add_child(board, target, nodes, k, d)[k] == nodes[k],
{
    let after = add_child(board, target, nodes, k, d);
    if after != nodes {
        let c = successor(board, nodes[k].point, d)->0;
        lemma_weight_push(nodes, child_of(nodes, k, c, target), total);
    }
}

/// Expanding an open node whose cost is below the number of cells makes the
/// weight of all nodes smaller.
pub(crate) proof fn lemma_weight_expand(
    board: Seq<Seq<i8>>,
    target: Point,
    nodes: Seq<SearchNode>,
    k: int,
    total: int,
)
    requires
        0 <= k < nodes.len(),
        !nodes[k].closed,
        nodes[k].g + 1 <= total,
    ensures
        total_weight(expand(board, target, nodes, k), total) < total_weight(nodes, total),
{
    let s0 = close(nodes, k);
    let s1 = add_child(board, target, s0, k, 0);
    let s2 = add_child(board, target, s1, k, 1);
    let s3 = add_child(board, target, s2, k, 2);
    let s4 = add_child(board, target, s3, k, 3);
    lemma_weight_update(nodes, k, SearchNode { closed: true, ..nodes[k] }, total);
    lemma_weight_add_child(board, target, s0, k, 0, total);
    lemma_weight_add_child(board, target, s1, k, 1, total);
    lemma_weight_add_child(board, target, s2, k, 2, total);
    lemma_weight_add_child(board, target, s3, k, 3, total);
    let d = (total - nodes[k].g) as nat;
    let w = weight((d - 1) as nat);
    lemma_weight_positive((d - 1) as nat);
    assert(weight(d) == 5 * w);
    assert(node_weight(nodes[k], total) == 5 * w);
    assert(node_weight(s0[k], total) == 0);
    assert(total_weight(s0, total) + 5 * w == total_weight(nodes, total));
    assert(s0[k].g == nodes[k].g);
    assert(total_weight(s1, total) <= total_weight(s0, total) + w);
    assert(total_weight(s2, total) <= total_weight(s1, total) + w);
    assert(total_weight(s3, total) <= total_weight(s2, total) + w);
    assert(total_weight(s4, total) <= total_weight(s3, total) + w);
}

/// One round of the search on an open node keeps the nodes well formed and
/// every cost bounded, and makes the weight of all nodes smaller.
pub(crate) proof fn lemma_expand_keeps(
    board: Seq<Seq<i8>>,
    start: Point,
    target: Point,
    nodes: Seq<SearchNode>,
    k: int,
)
    requires
        grid_ok(board),
        in_grid(board, target),
        well_formed(board, start, target, nodes),
        depths_bounded(board, nodes),
        0 <= k < nodes.len(),
        !nodes[k].closed,
    ensures
        well_formed(board, start, target, expand(board, target, nodes, k)),
        depths_bounded(board, expand(board, target, nodes, k)),
        total_weight(expand(board, target, nodes, k), cells(board)) < total_weight(nodes, cells(board)),
{
    let s0 = close(nodes, k);
    let s1 = add_child(board, target, s0, k, 0);
    let s2 = add_child(board, target, s1, k, 1);
    let s3 = add_child(board, target, s2, k, 2);
    let s4 = add_child(board, target, s3, k, 3);
    assert(node_ok(board, start, target, nodes, k));
    crate::search::lemma_close_well_formed(board, start, target, nodes, k);
    lemma_close_depths(board, start, target, nodes, k);
    lemma_closed_depth(board, start, target, s0, k);
    let total = cells(board);
    lemma_weight_add_child(board, target, s0, k, 0, total);
    lemma_weight_add_child(board, target, s1, k, 1, total);
    lemma_weight_add_child(board, target, s2, k, 2, total);
    lemma_weight_add_child(board, target, s3, k, 3, total);
    crate::search::lemma_add_child_well_formed(board, start, target, s0, k, 0);
    lemma_add_child_depths(board, start, target, s0, k, 0);
    crate::search::lemma_add_child_well_formed(board, start, target, s1, k, 1);
    lemma_add_child_depths(board, start, target, s1, k, 1);
    crate::search::lemma_add_child_well_formed(board, start, target, s2, k, 2);
    lemma_add_child_depths(board, start, target, s2, k, 2);
    crate::search::lemma_add_child_well_formed(board, start, target, s3, k, 3);
    lemma_add_child_depths(board, start, target, s3, k, 3);
    lemma_weight_expand(board, target, nodes, k, total);
}

} // verus!
