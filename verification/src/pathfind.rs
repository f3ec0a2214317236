//! Searches on the playing field: the list of nodes, the shortest path
//! between two positions, and the cycle through all cells of a full grid.

use vstd::prelude::*;
use std::collections::HashMap;
use crate::game::Position;
use crate::constants::{BOARD_WIDTH, BOARD_HEIGHT};
use crate::common::{Point, grid_of, grid_ok, in_grid};
use crate::search::search_result;
use crate::walk::{reachable, is_shortest};
use crate::hamilton::{
    neighbours, is_grid_graph, cycle_from, cycle_among, hamiltonian_cycle, is_full_cycle, adjacency,
};

verus! {

/// A node of a search on the playing field.
#[derive(Copy, Clone, Debug)]
pub struct Node {
    pub index: usize,
    pub position: Position,
    pub g: i32,
    pub h: i32,
    pub f: i32,
}

impl Node {
    /// A node with the given fields.
    pub fn new(index: usize, position: Position, g: i32, h: i32, f: i32) -> (r: Node)
        ensures
            r == (Node { index, position, g, h, f }),
    {
        Node { index, position, g, h, f }
    }
}

/// A list of nodes, each with the index of its parent. It is used as a
/// stack; `sort` puts the node with the least `f` on top.
pub struct NodeList {
    pub length: usize,
    pub nodes: Vec<Node>,
    pub parents: Vec<usize>,
}

/// `after` holds the pairs of `before` in the order of `from`: the pair at
/// `i` is the one that stood at `from[i]`, and every place of `before` is
/// taken once.
pub open spec fn rearranged(before: Seq<(Node, usize)>, after: Seq<(Node, usize)>, from: Seq<int>) -> bool {
    &&& from.len() == before.len()
    &&& after.len() == before.len()
    &&& forall|i: int| 0 <= i < from.len() ==> 0 <= #[trigger] from[i] < before.len()
    &&& forall|i: int, j: int| 0 <= i < j < from.len() ==> #[trigger] from[i] != #[trigger] from[j]
    &&& forall|i: int| 0 <= i < from.len() ==> #[trigger] after[i] == before[from[i]]
}

/// The first `n` pairs of `after` stand by falling `f`, and pairs with the
/// same `f` in the order in which they stood before.
pub open spec fn falling(after: Seq<(Node, usize)>, from: Seq<int>, n: int) -> bool {
    forall|i: int, j: int|
        0 <= i < j < n ==> {
            ||| (#[trigger] after[i]).0.f > (#[trigger] after[j]).0.f
            ||| (after[i].0.f == after[j].0.f && from[i] < from[j])
        }
}

/// `after` is `before` sorted by falling `f`, with pairs of the same `f`
/// left in their order.
pub open spec fn sorted_from(before: Seq<(Node, usize)>, after: Seq<(Node, usize)>) -> bool {
    exists|from: Seq<int>| #[trigger] rearranged(before, after, from) && falling(after, from, after.len() as int)
}

impl NodeList {
    /// The list holds as many parents as nodes, and `length` counts them.
    pub open spec fn wf(&self) -> bool {
        self.length == self.nodes.len() && self.nodes.len() == self.parents.len()
    }

    /// The pairs of node and parent, the top of the stack last.
    pub open spec fn pairs(&self) -> Seq<(Node, usize)> {
        Seq::new(self.nodes@.len(), |i: int| (self.nodes@[i], self.parents@[i]))
    }

    /// The empty list.
    pub fn new() -> (r: NodeList)
        ensures
            r.wf(),
            r.pairs() == Seq::<(Node, usize)>::empty(),
    {
        let r = NodeList { length: 0, nodes: Vec::new(), parents: Vec::new() };
        assert(r.pairs() =~= Seq::<(Node, usize)>::empty());
        r
    }

    /// Puts a node with its parent on top.
    pub fn push(&mut self, node: Node, parent: usize)
        requires
            old(self).wf(),
        ensures
            final(self).wf(),
            final(self).pairs() == old(self).pairs().push((node, parent)),
    {
        self.nodes.push(node);
        self.parents.push(parent);
        self.length = self.nodes.len();
        assert(self.pairs() =~= old(self).pairs().push((node, parent)));
    }

    /// Takes the node on top with its parent; `None` where the list is
    /// empty.
    pub fn pop(&mut self) -> (r: Option<(Node, usize)>)
        requires
            old(self).wf(),
        ensures
            final(self).wf(),
            match r {
                Some(top) => old(self).pairs().len() > 0 && top == old(self).pairs().last() && final(self).pairs()
                    == old(self).pairs().drop_last(),
                None => old(self).pairs().len() == 0 && final(self).pairs() == old(self).pairs(),
            },
    {
        if self.length == 0 {
            None
        } else {
            self.length -= 1;
            let node = self.nodes.pop().unwrap();
            let parent = self.parents.pop().unwrap();
            assert(self.pairs() =~= old(self).pairs().drop_last());
            Some((node, parent))
        }
    }

    /// Sorts the pairs by falling `f`, so that the node with the least `f`
    /// comes on top; pairs with the same `f` keep their order.
    pub fn sort(&mut self)
        requires
            old(self).wf(),
        ensures
            final(self).wf(),
            sorted_from(old(self).pairs(), final(self).pairs()),
    {
        let n = self.nodes.len();
        let ghost before = self.pairs();
        let ghost mut from: Seq<int> = Seq::new(n as nat, |i: int| i);
        let mut i: usize = 0;
        while i < n
            invariant
                i <= n,
                n == self.nodes.len(),
                self.wf(),
                before.len() == n,
                rearranged(before, self.pairs(), from),
                falling(self.pairs(), from, i as int),
                forall|k: int| 0 <= k < i ==> #[trigger] from[k] < i,
                forall|k: int| i <= k < n ==> #[trigger] from[k] == k,
            decreases n - i,
        {
            let mut j: usize = i;
            while j > 0 && self.nodes[j - 1].f < self.nodes[j].f
                invariant
                    j <= i < n,
                    n == self.nodes.len(),
                    self.wf(),
                    before.len() == n,
                    rearranged(before, self.pairs(), from),
                    from[j as int] == i,
                    forall|k: int| 0 <= k <= i && k != j ==> #[trigger] from[k] < i,
                    forall|k: int| i < k < n ==> #[trigger] from[k] == k,
                    forall|a: int, b: int|
                        0 <= a < b <= i && a != j && b != j ==> {
                            ||| (#[trigger] self.pairs()[a]).0.f > (#[trigger] self.pairs()[b]).0.f
                            ||| (self.pairs()[a].0.f == self.pairs()[b].0.f && from[a] < from[b])
                        },
                    forall|b: int| j < b <= i ==> self.pairs()[j as int].0.f > (#[trigger] self.pairs()[b]).0.f,
                decreases j,
            {
                let ghost cur = self.pairs();
                let ghost old_from = from;
                let node = self.nodes[j];
                let parent = self.parents[j];
                let other_node = self.nodes[j - 1];
                let other_parent = self.parents[j - 1];
                self.nodes[j] = other_node;
                self.parents[j] = other_parent;
                self.nodes[j - 1] = node;
                self.parents[j - 1] = parent;
                proof {
                    from = old_from.update(j as int, old_from[j - 1]).update(j - 1, old_from[j as int]);
                    let now = self.pairs();
                    assert(now =~= cur.update(j as int, cur[j - 1]).update(j - 1, cur[j as int]));
                    assert forall|a: int| 0 <= a < from.len() implies #[trigger] now[a] == before[from[a]] by {
                        assert(cur[a] == before[old_from[a]]);
                        assert(cur[j as int] == before[old_from[j as int]]);
                        assert(cur[j - 1] == before[old_from[j - 1]]);
                    }
                    assert forall|a: int, b: int| 0 <= a < b < from.len() implies #[trigger] from[a] != #[trigger] from[b] by {
                        let oa = if a == j { j - 1 } else if a == j - 1 { j as int } else { a };
                        let ob = if b == j { j - 1 } else if b == j - 1 { j as int } else { b };
                        assert(from[a] == old_from[oa]);
                        assert(from[b] == old_from[ob]);
                        if oa < ob {
                            assert(old_from[oa] != old_from[ob]);
                        } else {
                            assert(old_from[ob] != old_from[oa]);
                        }
                    }
                    assert forall|a: int, b: int| 0 <= a < b <= i && a != j - 1 && b != j - 1 implies {
                        ||| (#[trigger] now[a]).0.f > (#[trigger] now[b]).0.f
                        ||| (now[a].0.f == now[b].0.f && from[a] < from[b])
                    } by {
                        if b == j {
                            // the pair that stood at j - 1, now at j
                            assert(now[j as int] == cur[j - 1]);
                            assert(now[a] == cur[a]);
                            assert({
                                ||| cur[a].0.f > cur[j - 1].0.f
                                ||| (cur[a].0.f == cur[j - 1].0.f && old_from[a] < old_from[j - 1])
                            });
                        } else if a == j {
                            assert(now[j as int] == cur[j - 1]);
                            assert(now[b] == cur[b]);
                            assert({
                                ||| cur[j - 1].0.f > cur[b].0.f
                                ||| (cur[j - 1].0.f == cur[b].0.f && old_from[j - 1] < old_from[b])
                            });
                        } else {
                            assert(now[a] == cur[a]);
                            assert(now[b] == cur[b]);
                            assert({
                                ||| cur[a].0.f > cur[b].0.f
                                ||| (cur[a].0.f == cur[b].0.f && old_from[a] < old_from[b])
                            });
                        }
                    }
                    assert forall|b: int| j - 1 < b <= i implies now[j - 1].0.f > (#[trigger] now[b]).0.f by {
                        if b == j {
                            assert(now[b] == cur[j - 1]);
                        } else {
                            assert(now[b] == cur[b]);
                            assert(cur[j as int].0.f > cur[b].0.f);
                        }
                    }
                }
                j -= 1;
            }
            proof {
                let now = self.pairs();
                assert forall|a: int, b: int| 0 <= a < b < i + 1 implies {
                    ||| (#[trigger] now[a]).0.f > (#[trigger] now[b]).0.f
                    ||| (now[a].0.f == now[b].0.f && from[a] < from[b])
                } by {
                    if a == j {
                        assert(now[j as int].0.f > now[b].0.f);
                    } else if b == j {
                        // every pair before j stands no lower than the one at j - 1
                        assert(j > 0);
                        assert(now[j - 1].0.f >= now[j as int].0.f);
                        assert(from[a] < i);
                        if a < j - 1 {
                            assert({
                                ||| now[a].0.f > now[j - 1].0.f
                                ||| (now[a].0.f == now[j - 1].0.f && from[a] < from[j - 1])
                            });
                        }
                    } else {
                    }
                }
            }
            i += 1;
        }
    }
}

/// The board reaches over the whole playing field.
pub open spec fn covers_field(grid: Seq<Seq<i8>>) -> bool {
    &&& grid.len() >= BOARD_WIDTH
    &&& forall|x: int| 0 <= x < BOARD_WIDTH ==> (#[trigger] grid[x]).len() >= BOARD_HEIGHT
}

/// The part of the board that is the playing field.
pub open spec fn field_of(grid: Seq<Seq<i8>>) -> Seq<Seq<i8>> {
    Seq::new(BOARD_WIDTH as nat, |x: int| grid[x].subrange(0, BOARD_HEIGHT as int))
}

/// A position of the playing field as a cell of a board.
pub open spec fn point_of(p: Position) -> Point {
    Point { x: p.x as usize, y: p.y as usize }
}

/// A cell of the playing field as a position.
pub open spec fn position_of(p: Point) -> Position {
    Position { x: p.x as u8, y: p.y as u8 }
}

/// The cells of a path as positions.
pub open spec fn positions_of(s: Seq<Point>) -> Seq<Position> {
    Seq::new(s.len(), |i: int| position_of(s[i]))
}

/// The path that the search returns on the playing field, as positions.
/// There is none where the board does not reach over the whole field.
pub open spec fn field_path(grid: Seq<Seq<i8>>, start: Position, end: Position) -> Option<Seq<Position>> {
    if covers_field(grid) {
        match search_result(field_of(grid), point_of(start), point_of(end)) {
            Some(s) => Some(positions_of(s)),
            None => None,
        }
    } else {
        None
    }
}

/// A path as a sequence of positions, where there is one.
pub open spec fn positions_view(r: Option<Vec<Position>>) -> Option<Seq<Position>> {
    match r {
        Some(v) => Some(v@),
        None => None,
    }
}

/// A copy of the part of the board that is the playing field, where the
/// board reaches over all of it.
fn field_board(board: &Vec<Vec<i8>>) -> (r: Option<Vec<Vec<i8>>>)
    ensures
        r is Some <==> covers_field(grid_of(board@)),
        r matches Some(f) ==> grid_of(f@) == field_of(grid_of(board@)),
{
    let ghost grid = grid_of(board@);
    if board.len() < BOARD_WIDTH as usize {
        return None;
    }
    let mut out: Vec<Vec<i8>> = Vec::new();
    let mut x: usize = 0;
    while x < BOARD_WIDTH as usize
        invariant
            x <= BOARD_WIDTH,
            board.len() >= BOARD_WIDTH,
            grid == grid_of(board@),
            out.len() == x,
            forall|i: int| 0 <= i < x ==> (#[trigger] grid[i]).len() >= BOARD_HEIGHT,
            forall|i: int| 0 <= i < x ==> (#[trigger] out@[i])@ == grid[i].subrange(0, BOARD_HEIGHT as int),
        decreases BOARD_WIDTH - x,
    {
        if board[x].len() < BOARD_HEIGHT as usize {
            assert(grid[x as int].len() < BOARD_HEIGHT);
            return None;
        }
        let mut row: Vec<i8> = Vec::new();
        let mut y: usize = 0;
        while y < BOARD_HEIGHT as usize
            invariant
                y <= BOARD_HEIGHT,
                x < board.len(),
                board@[x as int].len() >= BOARD_HEIGHT,
                row.len() == y,
                forall|j: int| 0 <= j < y ==> #[trigger] row@[j] == board@[x as int]@[j],
            decreases BOARD_HEIGHT - y,
        {
            row.push(board[x][y]);
            y += 1;
        }
        assert(row@ =~= grid[x as int].subrange(0, BOARD_HEIGHT as int));
        out.push(row);
        x += 1;
    }
    assert(grid_of(out@) =~= field_of(grid));
    Some(out)
}

/// The shortest path from `start` to `end` over the free cells of the
/// playing field; `None` where the board does not reach over the whole
/// field, where `start` or `end` lies off the field, and where no walk
/// leads from the one to the other.
pub fn astar(board: &Vec<Vec<i8>>, start: Position, end: Position) -> (r: Option<Vec<Position>>)
    ensures
        positions_view(r) == field_path(grid_of(board@), start, end),
        r is Some <==> covers_field(grid_of(board@)) && in_grid(field_of(grid_of(board@)), point_of(start))
            && in_grid(field_of(grid_of(board@)), point_of(end)) && reachable(
            field_of(grid_of(board@)),
            point_of(start),
            point_of(end),
        ),
        r matches Some(v) ==> exists|s: Seq<Point>|
            #[trigger] is_shortest(field_of(grid_of(board@)), point_of(start), point_of(end), s) && s.no_duplicates()
                && v@ == positions_of(s),
{
    let field = match field_board(board) {
        Some(f) => f,
        None => {
            return None;
        },
    };
    let ghost grid = field_of(grid_of(board@));
    assert(grid_ok(grid)) by {
        assert(grid[0].len() == BOARD_HEIGHT);
        assert forall|i: int| 0 <= i < grid.len() implies (#[trigger] grid[i]).len() == grid[0].len() by {}
    }
    let from = Point { x: start.x as usize, y: start.y as usize };
    let to = Point { x: end.x as usize, y: end.y as usize };
    match crate::astar::AStar::astar(field.as_slice(), from, to) {
        Some(path) => {
            let mut out: Vec<Position> = Vec::new();
            let mut i: usize = 0;
            while i < path.len()
                invariant
                    i <= path.len(),
                    crate::walk::is_walk(grid, path@),
                    grid.len() == BOARD_WIDTH,
                    grid[0].len() == BOARD_HEIGHT,
                    out@ == positions_of(path@.subrange(0, i as int)),
                decreases path.len() - i,
            {
                assert(in_grid(grid, path@[i as int]));
                out.push(Position { x: path[i].x as u8, y: path[i].y as u8 });
                i += 1;
                assert(out@ =~= positions_of(path@.subrange(0, i as int)));
            }
            assert(path@.subrange(0, i as int) =~= path@);
            Some(out)
        },
        None => None,
    }
}

/// A search for a shortest path on the playing field that keeps the path
/// it found last.
pub struct AStar {
    start: Position,
    end: Position,
    board: Vec<Vec<i8>>,
    path: Vec<Position>,
}

impl AStar {
    /// The cell from which the search starts.
    pub closed spec fn start_cell(&self) -> Position {
        self.start
    }

    /// The cell to which the search leads.
    pub closed spec fn end_cell(&self) -> Position {
        self.end
    }

    /// The board that is searched.
    pub closed spec fn grid(&self) -> Seq<Seq<i8>> {
        grid_of(self.board@)
    }

    /// The path that was found last; empty before the first was.
    pub closed spec fn path_cells(&self) -> Seq<Position> {
        self.path@
    }

    /// A search from `start` to `end` on `board` that has found no path yet.
    pub fn new(start: Position, end: Position, board: Vec<Vec<i8>>) -> (r: AStar)
        ensures
            r.start_cell() == start,
            r.end_cell() == end,
            r.grid() == grid_of(board@),
            r.path_cells() == Seq::<Position>::empty(),
    {
        AStar { start, end, board, path: Vec::new() }
    }

    /// Searches, and keeps the path where there is one; else the path that
    /// was kept before stays.
    pub fn calc_path(&mut self)
        ensures
            final(self).start_cell() == old(self).start_cell(),
            final(self).end_cell() == old(self).end_cell(),
            final(self).grid() == old(self).grid(),
            final(self).path_cells() == match field_path(old(self).grid(), old(self).start_cell(), old(self).end_cell()) {
                Some(p) => p,
                None => old(self).path_cells(),
            },
    {
        let path_list = astar(&self.board, self.start, self.end);
        if let Some(path) = path_list {
            self.path = path;
        }
    }

    /// The path that was found last.
    pub fn get_path(&self) -> (r: &Vec<Position>)
        ensures
            r@ == self.path_cells(),
    {
        &self.path
    }
}

/// A cycle as a sequence of vertices, where there is one.
pub open spec fn cycle_view(r: Option<Vec<usize>>) -> Option<Seq<usize>> {
    match r {
        Some(v) => Some(v@),
        None => None,
    }
}

/// Whether `k` is among the vertices of `list`.
fn holds(list: &Vec<usize>, k: usize) -> (r: bool)
    ensures
        r == list@.contains(k),
{
    let mut i: usize = 0;
    while i < list.len()
        invariant
            i <= list.len(),
            forall|j: int| 0 <= j < i ==> list@[j] != k,
        decreases list.len() - i,
    {
        if list[i] == k {
            return true;
        }
        i += 1;
    }
    false
}

/// A search for a cycle through all cells of a full grid.
pub struct Hamiltonian {
    graph: HashMap<usize, Vec<usize>>,
    width: usize,
    height: usize,
    start: usize,
    path: Option<Vec<usize>>,
    calculated: bool,
}

impl Hamiltonian {
    #[verifier::type_invariant]
    spec fn inv(self) -> bool {
        &&& self.graph@.dom().finite()
        &&& self.calculated ==> cycle_view(self.path) == hamiltonian_cycle(adjacency(self.graph@), self.start)
    }

    /// The graph that is searched: each vertex with its neighbours.
    pub closed spec fn graph_view(&self) -> Map<usize, Seq<usize>> {
        adjacency(self.graph@)
    }

    /// The vertex at which the cycle begins.
    pub closed spec fn start_vertex(&self) -> usize {
        self.start
    }

    /// The graph that is searched.
    pub fn graph(&self) -> (r: &HashMap<usize, Vec<usize>>)
        ensures
            adjacency(r@) == self.graph_view(),
    {
        &self.graph
    }

    /// The graph of the full grid `width` cells wide and `height` cells
    /// high.
    pub fn create_graph(width: usize, height: usize) -> (graph: HashMap<usize, Vec<usize>>)
        requires
            width * height <= usize::MAX,
        ensures
            is_grid_graph(adjacency(graph@), width as int, height as int),
            graph@.dom().finite(),
            graph@.dom().len() == width * height,
    {
        broadcast use vstd::std_specs::hash::group_hash_axioms;

        let mut graph: HashMap<usize, Vec<usize>> = HashMap::new();
        assert(width * height >= 0) by (nonlinear_arith)
            requires
                width >= 0,
                height >= 0,
        ;
        let total: usize = width * height;
        let mut index: usize = 0;
        while index < total
            invariant
                index <= total,
                total == width * height,
                graph@.dom().finite(),
                graph@.dom().len() == index,
                forall|k: usize| graph@.contains_key(k) <==> 0 <= k < index,
                forall|k: usize|
                    #[trigger] graph@.contains_key(k) ==> graph@[k]@ == neighbours(width as int, height as int, k as int),
            decreases total - index,
        {
            assert(width > 0 && height > 0) by (nonlinear_arith)
                requires
                    index < width * height,
                    width >= 0,
                    height >= 0,
            ;
            assert(width * (height - 1) >= 0 && width * (height - 1) + width == width * height) by (nonlinear_arith)
                requires
                    width > 0,
                    height > 0,
            ;
            assert(0usize % width == 0) by {
                vstd::arithmetic::div_mod::lemma_small_mod(0, width as nat);
            }
            let mut this_list: Vec<usize> = Vec::new();
            if index % width != 0 {
                this_list.push(index - 1);
            }
            if index % width != width - 1 {
                this_list.push(index + 1);
            }
            if index >= width {
                this_list.push(index - width);
            }
            if index < width * (height - 1) {
                this_list.push(index + width);
            }
            assert(this_list@ =~= neighbours(width as int, height as int, index as int));
            graph.insert(index, this_list);
            index += 1;
        }
        proof {
            crate::hamilton::lemma_adjacency(graph@);
        }
        graph
    }

    /// A search on the full grid `width` cells wide and `height` cells high
    /// for a cycle that begins at the cell with index `start`.
    pub fn new(width: usize, height: usize, start: usize) -> (r: Hamiltonian)
        requires
            width * height <= usize::MAX,
        ensures
            is_grid_graph(r.graph_view(), width as int, height as int),
            r.graph_view().dom().finite(),
            r.graph_view().dom().len() == width * height,
            r.start_vertex() == start,
    {
        let graph = Hamiltonian::create_graph(width, height);
        proof {
            crate::hamilton::lemma_adjacency(graph@);
        }
        Hamiltonian { width, height, start, graph, path: None, calculated: false }
    }

    /// Goes on from `path` to the vertex `point` and looks for a cycle
    /// through `size` vertices. `point` is put on the path unless it is on
    /// it already; each further step works on a copy of the path.
    pub fn hamilton(
        graph: &HashMap<usize, Vec<usize>>,
        size: usize,
        point: usize,
        path: &mut Vec<usize>,
    ) -> (r:
        Option<Vec<usize>>)
        ensures
            cycle_view(r) == cycle_from(adjacency(graph@), size as int, point, old(path)@),
            final(path)@ == if old(path)@.contains(point) {
                old(path)@
            } else {
                old(path)@.push(point)
            },
        decreases size - old(path).len(),
    {
        broadcast use vstd::std_specs::hash::group_hash_axioms;

        proof {
            crate::hamilton::lemma_adjacency(graph@);
        }
        if !holds(path, point) {
            path.push(point);
            if path.len() > size {
                return None;
            }
            if path.len() == size {
                if let Some(next_points) = graph.get(&point) {
                    if holds(next_points, path[0]) {
                        return Some(path.clone());
                    } else {
                        return None;
                    }
                }
            }
            if let Some(next_points) = graph.get(&point) {
                let mut i: usize = 0;
                while i < next_points.len()
                    invariant
                        i <= next_points.len(),
                        path.len() < size,
                        path@ == old(path)@.push(point),
                        !old(path)@.contains(point),
                        adjacency(graph@).contains_key(point),
                        next_points@ == adjacency(graph@)[point],
                        cycle_among(adjacency(graph@), size as int, next_points@, 0, path@) == cycle_among(
                            adjacency(graph@),
                            size as int,
                            next_points@,
                            i as int,
                            path@,
                        ),
                    decreases next_points.len() - i,
                {
                    let mut res_path = path.clone();
                    assert(res_path@ =~= path@);
                    let candidate = Hamiltonian::hamilton(graph, size, next_points[i], &mut res_path);
                    if candidate.is_some() {
                        return candidate;
                    }
                    i += 1;
                }
            }
        }
        None
    }

    /// The cycle through all cells of the grid that the search finds from
    /// the start, or `None` where it finds none.
    pub fn calc_hamiltonian_cycle(&mut self) -> (r: Option<Vec<usize>>)
        ensures
            cycle_view(r) == hamiltonian_cycle(old(self).graph_view(), old(self).start_vertex()),
            final(self).graph_view() == old(self).graph_view(),
            final(self).start_vertex() == old(self).start_vertex(),
            r matches Some(c) ==> is_full_cycle(
                old(self).graph_view(),
                old(self).graph_view().dom().len() as int,
                c@,
            ) && c@[0] == old(self).start_vertex(),
            r is None ==> forall|c: Seq<usize>|
                !(#[trigger] is_full_cycle(old(self).graph_view(), old(self).graph_view().dom().len() as int, c)
                    && c[0] == old(self).start_vertex()),
    {
        proof {
            use_type_invariant(&*self);
            crate::hamilton::lemma_hamiltonian_cycle(adjacency(self.graph@), self.start);
            crate::hamilton::lemma_adjacency(self.graph@);
        }
        if !self.calculated {
            let size = self.graph.len();
            if size == 0 {
                self.path = None;
            } else {
                let mut path: Vec<usize> = Vec::new();
                self.path = Hamiltonian::hamilton(&self.graph, size, self.start, &mut path);
            }
            self.calculated = true;
        }
        self.path.clone()
    }
}

} // verus!
