//! The search for a shortest path between two cells of a board.

use vstd::prelude::*;
use crate::common::{
    Point, grid_of, grid_ok, in_grid, non_empty, manhattan, is_rectangular, width_of, height_of, point_of_index,
    index_of_point, cells, lemma_index_in_range, lemma_point_in_grid,
};
use crate::search::{
    Node, model_of, successor, has_closed_at, has_cheaper_open_at, none_open, goes_before, is_best, add_child,
    close, expand, path_to, initial, rounds, search_result, well_formed, node_ok, child_of,
};
use crate::progress::{depths_bounded, depth_bounded, total_weight};
use crate::walk::{connects, reachable, is_shortest, distance};

verus! {

/// A search for a shortest path between two cells of a board, given by
/// their row-major indices.
pub struct AStar<'a> {
    board: &'a [Vec<i8>],
    start: Point,
    target: Point,
    board_height: usize,
    board_width: usize,
}

/// A path as a sequence of cells, where there is one.
pub open spec fn path_view(r: Option<Vec<Point>>) -> Option<Seq<Point>> {
    match r {
        Some(v) => Some(v@),
        None => None,
    }
}

/// A path as a sequence of row-major indices, where there is one.
pub open spec fn index_view(r: Option<Vec<usize>>) -> Option<Seq<usize>> {
    match r {
        Some(v) => Some(v@),
        None => None,
    }
}

/// The row-major indices of the cells of a path.
pub open spec fn indices_of(width: int, s: Seq<Point>) -> Seq<usize> {
    Seq::new(s.len(), |i: int| index_of_point(width, s[i]) as usize)
}

/// The Manhattan distance between two cells, in a type that holds it for
/// every pair of cells.
fn estimate(a: Point, b: Point) -> (r: u128)
    ensures
        r == manhattan(a, b),
{
    let dx: usize = if a.x >= b.x { a.x - b.x } else { b.x - a.x };
    let dy: usize = if a.y >= b.y { a.y - b.y } else { b.y - a.y };
    dx as u128 + dy as u128
}

/// The open node that is taken next: the one with the least `f`, and among
/// those the one made first.
fn find_best(nodes: &Vec<Node>) -> (r: Option<usize>)
    ensures
        match r {
            Some(k) => is_best(model_of(nodes@), k as int),
            None => none_open(model_of(nodes@)),
        },
{
    let ghost model = model_of(nodes@);
    let mut found: Option<usize> = None;
    let mut i: usize = 0;
    while i < nodes.len()
        invariant
            i <= nodes.len(),
            model == model_of(nodes@),
            match found {
                Some(k) => {
                    &&& k < i
                    &&& !model[k as int].closed
                    &&& forall|j: int| 0 <= j < i && !(#[trigger] model[j]).closed ==> goes_before(model, k as int, j)
                },
                None => forall|j: int| 0 <= j < i ==> (#[trigger] model[j]).closed,
            },
        decreases nodes.len() - i,
    {
        if !nodes[i].closed {
            match found {
                Some(k) => {
                    if nodes[i].f < nodes[k].f {
                        found = Some(i);
                    }
                },
                None => {
                    found = Some(i);
                },
            }
        }
        i += 1;
    }
    found
}

/// Whether a closed node stands on `p`.
fn closed_at(nodes: &Vec<Node>, p: Point) -> (r: bool)
    ensures
        r == has_closed_at(model_of(nodes@), p),
{
    let ghost model = model_of(nodes@);
    let mut i: usize = 0;
    while i < nodes.len()
        invariant
            i <= nodes.len(),
            model == model_of(nodes@),
            forall|j: int| 0 <= j < i ==> !((#[trigger] model[j]).closed && model[j].point == p),
        decreases nodes.len() - i,
    {
        if nodes[i].closed && nodes[i].point == p {
            assert(model[i as int].closed && model[i as int].point == p);
            return true;
        }
        i += 1;
    }
    false
}

/// Whether an open node stands on `p` with a cost below `g`.
fn cheaper_open_at(nodes: &Vec<Node>, p: Point, g: usize) -> (r: bool)
    ensures
        r == has_cheaper_open_at(model_of(nodes@), p, g as int),
{
    let ghost model = model_of(nodes@);
    let mut i: usize = 0;
    while i < nodes.len()
        invariant
            i <= nodes.len(),
            model == model_of(nodes@),
            forall|j: int| 0 <= j < i ==> !(!(#[trigger] model[j]).closed && model[j].point == p && model[j].g < g),
        decreases nodes.len() - i,
    {
        if !nodes[i].closed && nodes[i].point == p && nodes[i].g < g {
            assert(!model[i as int].closed && model[i as int].point == p && model[i as int].g < g);
            return true;
        }
        i += 1;
    }
    false
}

/// The successor with number `d` of the cell `p`.
fn next_cell(board: &[Vec<i8>], p: Point, d: usize) -> (r: Option<Point>)
    requires
        grid_ok(grid_of(board@)),
        d < 4,
    ensures
        r == successor(grid_of(board@), p, d as int),
{
    let dx: isize = if d == 0 { 1 } else if d == 2 { -1 } else { 0 };
    let dy: isize = if d == 1 { 1 } else if d == 3 { -1 } else { 0 };
    match p.get_offset(board.len(), board[0].len(), dx, dy) {
        Some(c) => {
            if board[c.x][c.y] == 1 {
                None
            } else {
                Some(c)
            }
        },
        None => None,
    }
}

/// Tries the successor with number `d` of the node `k`.
fn try_child(board: &[Vec<i8>], target: Point, nodes: &mut Vec<Node>, k: usize, d: usize)
    requires
        grid_ok(grid_of(board@)),
        k < old(nodes).len(),
        old(nodes)@[k as int].g <= k,
        d < 4,
    ensures
        model_of(final(nodes)@) == add_child(grid_of(board@), target, model_of(old(nodes)@), k as int, d as int),
        final(nodes)@.len() >= old(nodes)@.len(),
        final(nodes)@[k as int] == old(nodes)@[k as int],
{
    let from = nodes[k];
    match next_cell(board, from.point, d) {
        Some(c) => {
            let g: usize = from.g + 1;
            if !closed_at(nodes, c) && !cheaper_open_at(nodes, c, g) {
                let h: u128 = estimate(c, target);
                let index: usize = nodes.len();
                let child = Node { index, parent: Some(k), point: c, g, h, f: g as u128 + h, closed: false };
                nodes.push(child);
                proof {
                    let before = model_of(old(nodes)@);
                    assert(child@ == child_of(before, k as int, c, target));
                    assert(model_of(nodes@) =~= before.push(child@));
                }
            }
        },
        None => {},
    }
}

/// Closes the node `k` and tries its four successors in their fixed order.
fn expand_node(board: &[Vec<i8>], target: Point, nodes: &mut Vec<Node>, k: usize)
    requires
        grid_ok(grid_of(board@)),
        k < old(nodes).len(),
        old(nodes)@[k as int].g <= k,
    ensures
        model_of(final(nodes)@) == expand(grid_of(board@), target, model_of(old(nodes)@), k as int),
{
    let mut taken = nodes[k];
    taken.closed = true;
    nodes[k] = taken;
    assert(model_of(nodes@) =~= close(model_of(old(nodes)@), k as int));
    try_child(board, target, nodes, k, 0);
    try_child(board, target, nodes, k, 1);
    try_child(board, target, nodes, k, 2);
    try_child(board, target, nodes, k, 3);
}

/// The cells from the first node to the node `k`, along the parents.
fn path_of(nodes: &Vec<Node>, k: usize) -> (r: Vec<Point>)
    requires
        k < nodes.len(),
        forall|i: int| 0 <= i < nodes.len() ==> match (#[trigger] nodes@[i]).parent {
            Some(p) => p < i,
            None => true,
        },
    ensures
        r@ == path_to(model_of(nodes@), k as int),
{
    let ghost model = model_of(nodes@);
    let mut back: Vec<Point> = Vec::new();
    let mut cur: usize = k;
    loop
        invariant_except_break
            path_to(model, k as int) == path_to(model, cur as int) + back@.reverse(),
        invariant
            cur < nodes.len(),
            model == model_of(nodes@),
            forall|i: int| 0 <= i < nodes.len() ==> match (#[trigger] nodes@[i]).parent {
                Some(p) => p < i,
                None => true,
            },
        ensures
            path_to(model, k as int) == back@.reverse(),
        decreases cur,
    {
        let ghost before = back@;
        back.push(nodes[cur].point);
        proof {
            assert(back@.reverse() =~= seq![nodes@[cur as int].point] + before.reverse());
            assert(model[cur as int] == nodes@[cur as int]@);
        }
        match nodes[cur].parent {
            Some(p) => {
                proof {
                    assert(path_to(model, cur as int) == path_to(model, p as int).push(model[cur as int].point));
                    assert(path_to(model, p as int).push(model[cur as int].point) + before.reverse() =~= path_to(
                        model,
                        p as int,
                    ) + back@.reverse());
                }
                cur = p;
            },
            None => {
                proof {
                    assert(path_to(model, cur as int) == seq![model[cur as int].point]);
                    assert(seq![model[cur as int].point] + before.reverse() =~= back@.reverse());
                }
                break ;
            },
        }
    }
    let mut path: Vec<Point> = Vec::new();
    let mut i: usize = back.len();
    while i > 0
        invariant
            i <= back.len(),
            path@ == back@.reverse().subrange(0, back.len() - i),
        decreases i,
    {
        i -= 1;
        path.push(back[i]);
        proof {
            let rev = back@.reverse();
            assert(path@ =~= rev.subrange(0, back.len() - i));
        }
    }
    proof {
        assert(path@ =~= back@.reverse());
    }
    path
}

/// The row-major indices of the cells of a path on a board `width` cells
/// wide.
pub fn to_indices(width: usize, path: &Vec<Point>) -> (r: Vec<usize>)
    requires
        forall|i: int| 0 <= i < path.len() ==> index_of_point(width as int, #[trigger] path@[i]) <= usize::MAX,
    ensures
        r@ == indices_of(width as int, path@),
{
    let mut out: Vec<usize> = Vec::new();
    let mut i: usize = 0;
    while i < path.len()
        invariant
            i <= path.len(),
            forall|i: int| 0 <= i < path.len() ==> index_of_point(width as int, #[trigger] path@[i]) <= usize::MAX,
            out@ == indices_of(width as int, path@.subrange(0, i as int)),
        decreases path.len() - i,
    {
        out.push(Point::get_index_from_point(width, &path[i]));
        i += 1;
        proof {
            assert(out@ =~= indices_of(width as int, path@.subrange(0, i as int)));
        }
    }
    proof {
        assert(path@.subrange(0, i as int) =~= path@);
    }
    out
}

impl<'a> AStar<'a> {
    #[verifier::type_invariant]
    spec fn inv(self) -> bool {
        let grid = grid_of(self.board@);
        &&& non_empty(grid)
        &&& cells(grid) <= usize::MAX
        &&& self.board_width == width_of(grid)
        &&& self.board_height == height_of(grid)
        &&& in_grid(grid, self.start)
        &&& in_grid(grid, self.target)
    }

    /// The board that is searched.
    pub closed spec fn grid(&self) -> Seq<Seq<i8>> {
        grid_of(self.board@)
    }

    /// The cell from which the search starts.
    pub closed spec fn start_point(&self) -> Point {
        self.start
    }

    /// The cell to which the search leads.
    pub closed spec fn target_point(&self) -> Point {
        self.target
    }

    /// A search from the cell with index `start` to the cell with index
    /// `target`; `None` where the board has no cell, or more cells than a
    /// machine word counts, or where one of the indices names no cell.
    pub fn new(board: &'a [Vec<i8>], start: usize, target: usize) -> (r: Option<AStar<'a>>)
        ensures
            r is Some <==> non_empty(grid_of(board@)) && cells(grid_of(board@)) <= usize::MAX && start < cells(
                grid_of(board@),
            ) && target < cells(grid_of(board@)),
            r matches Some(a) ==> a.grid() == grid_of(board@) && a.start_point() == point_of_index(
                width_of(grid_of(board@)),
                start as int,
            ) && a.target_point() == point_of_index(width_of(grid_of(board@)), target as int),
    {
        if board.len() == 0 || board[0].len() == 0 {
            return None;
        }
        let board_width = board.len();
        let board_height = board[0].len();
        let w: u128 = board_width as u128;
        let h: u128 = board_height as u128;
        assert(w * h <= u128::MAX) by (nonlinear_arith)
            requires
                0 <= w <= 0xffff_ffff_ffff_ffff,
                0 <= h <= 0xffff_ffff_ffff_ffff,
        ;
        let total: u128 = w * h;
        if total > usize::MAX as u128 || start as u128 >= total || target as u128 >= total {
            return None;
        }
        proof {
            lemma_point_in_grid(grid_of(board@), start as int);
            lemma_point_in_grid(grid_of(board@), target as int);
        }
        Some(
            AStar {
                board,
                start: Point::get_point_from_index(board_width, start),
                target: Point::get_point_from_index(board_width, target),
                board_height,
                board_width,
            },
        )
    }

    /// The shortest path between the two cells as row-major indices; `None`
    /// where the board is not rectangular or no walk leads from the one to
    /// the other.
    pub fn calculate_path(&self) -> (r: Option<Vec<usize>>)
        ensures
            index_view(r) == match search_result(self.grid(), self.start_point(), self.target_point()) {
                Some(s) => Some(indices_of(width_of(self.grid()), s)),
                None => None,
            },
            r is Some <==> grid_ok(self.grid()) && reachable(self.grid(), self.start_point(), self.target_point()),
            r matches Some(v) ==> exists|s: Seq<Point>|
                #[trigger] is_shortest(self.grid(), self.start_point(), self.target_point(), s) && s.no_duplicates()
                    && v@ == indices_of(width_of(self.grid()), s),
    {
        proof {
            use_type_invariant(self);
        }
        if let Some(path) = AStar::astar(self.board, self.start, self.target) {
            proof {
                let grid = grid_of(self.board@);
                assert forall|i: int| 0 <= i < path.len() implies index_of_point(
                    self.board_width as int,
                    #[trigger] path@[i],
                ) <= usize::MAX by {
                    assert(in_grid(grid, path@[i]));
                    lemma_index_in_range(grid, path@[i]);
                }
            }
            let out = to_indices(self.board_width, &path);
            Some(out)
        } else {
            None
        }
    }

    /// The shortest path from `start` to `target` over free cells, moving
    /// between neighbours; `None` where the board is empty or not
    /// rectangular, where `start` or `target` lies off the board, and where
    /// no walk leads from `start` to `target`. Whether `start` itself is
    /// blocked is not asked.
    ///
    /// Among the shortest paths it is the one that `search_result` names:
    /// the open node with the least `f` is taken next, among equals the one
    /// made first, and the successors of a cell are tried in the order
    /// `(+1, 0)`, `(0, +1)`, `(-1, 0)`, `(0, -1)`.
    pub fn astar(board: &[Vec<i8>], start: Point, target: Point) -> (r: Option<Vec<Point>>)
        ensures
            path_view(r) == search_result(grid_of(board@), start, target),
            r is Some <==> {
                &&& grid_ok(grid_of(board@))
                &&& in_grid(grid_of(board@), start)
                &&& in_grid(grid_of(board@), target)
                &&& reachable(grid_of(board@), start, target)
            },
            r matches Some(path) ==> is_shortest(grid_of(board@), start, target, path@) && path@.no_duplicates(),
            r matches Some(path) ==> path@.len() - 1 == distance(grid_of(board@), start, target),
    {
        if !Point::point_within_board(board, start) || !Point::point_within_board(board, target) {
            return None;
        }
        if !is_rectangular(board) {
            return None;
        }
        let h0: u128 = estimate(start, target);
        let mut nodes: Vec<Node> = Vec::new();
        nodes.push(Node { index: 0, parent: None, point: start, g: 0, h: h0, f: h0, closed: false });
        let ghost grid = grid_of(board@);
        let ghost mut n: nat = 0;
        proof {
            assert(model_of(nodes@) =~= initial(start, target));
            crate::search::lemma_initial_well_formed(grid, start, target);
            assert(depth_bounded(grid, model_of(nodes@), 0));
            crate::optimal::lemma_search_result(grid, start, target);
        }
        loop
            invariant
                grid == grid_of(board@),
                grid_ok(grid),
                in_grid(grid, start),
                in_grid(grid, target),
                well_formed(grid, start, target, model_of(nodes@)),
                depths_bounded(grid, model_of(nodes@)),
                model_of(nodes@) == rounds(grid, target, initial(start, target), n),
                match search_result(grid, start, target) {
                    Some(p) => is_shortest(grid, start, target, p),
                    None => !reachable(grid, start, target),
                },
            decreases total_weight(model_of(nodes@), cells(grid)),
        {
            let ghost model = model_of(nodes@);
            match find_best(&nodes) {
                None => {
                    proof {
                        crate::search::lemma_result_at_end(grid, start, target, n);
                    }
                    return None;
                },
                Some(k) => {
                    proof {
                        crate::search::lemma_best_is(model, k as int);
                        assert(node_ok(grid, start, target, model, k as int));
                    }
                    if nodes[k].point == target {
                        proof {
                            assert forall|i: int| 0 <= i < nodes.len() implies match (#[trigger] nodes@[i]).parent {
                                Some(p) => p < i,
                                None => true,
                            } by {
                                assert(node_ok(grid, start, target, model, i));
                            }
                        }
                        let path = path_of(&nodes, k);
                        proof {
                            crate::search::lemma_result_at_end(grid, start, target, n);
                            crate::walk::lemma_shortest_is_simple(grid, start, target, path@);
                            crate::walk::lemma_distance(grid, start, target, path@);
                            assert(connects(grid, start, target, path@));
                        }
                        return Some(path);
                    }
                    expand_node(board, target, &mut nodes, k);
                    proof {
                        crate::progress::lemma_expand_keeps(grid, start, target, model, k as int);
                        n = n + 1;
                    }
                },
            }
        }
    }
}

} // verus!
