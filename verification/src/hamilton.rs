//! The cycle through all vertices of a graph that a depth-first search
//! finds, and why it finds one wherever there is one.

use vstd::prelude::*;
use vstd::arithmetic::div_mod::{lemma_fundamental_div_mod, lemma_mod_bound};
use crate::common::{adjacent, point_of_index};

verus! {

/// The neighbours of the cell with row-major index `index` on a full grid
/// `width` cells wide and `height` cells high, in the order in which the
/// search tries them: west, east, north, south, each only where it lies on
/// the grid.
pub open spec fn neighbours(width: int, height: int, index: int) -> Seq<usize> {
    let west: Seq<usize> = if index % width != 0 { seq![(index - 1) as usize] } else { seq![] };
    let east: Seq<usize> = if index % width != width - 1 { seq![(index + 1) as usize] } else { seq![] };
    let north: Seq<usize> = if index >= width { seq![(index - width) as usize] } else { seq![] };
    let south: Seq<usize> = if index < width * (height - 1) { seq![(index + width) as usize] } else { seq![] };
    west + east + north + south
}

/// A graph as the search sees it: each vertex with the sequence of its
/// neighbours.
pub open spec fn adjacency(graph: Map<usize, Vec<usize>>) -> Map<usize, Seq<usize>> {
    graph.map_values(|v: Vec<usize>| v@)
}

/// The search sees the vertices of the graph, each with the contents of
/// its list of neighbours.
pub(crate) proof fn lemma_adjacency(graph: Map<usize, Vec<usize>>)
    ensures
        adjacency(graph).dom() == graph.dom(),
        forall|k: usize| #[trigger] graph.contains_key(k) ==> adjacency(graph)[k] == graph[k]@,
{
    assert(adjacency(graph).dom() =~= graph.dom());
}

/// The graph of a full grid: each cell with its neighbours.
pub open spec fn is_grid_graph(graph: Map<usize, Seq<usize>>, width: int, height: int) -> bool {
    &&& forall|k: usize| graph.contains_key(k) <==> 0 <= k < width * height
    &&& forall|k: usize| #[trigger] graph.contains_key(k) ==> graph[k] == neighbours(width, height, k as int)
}

/// The cycle that the search finds when it goes on from `path` to the
/// vertex `point`: none where `point` is on the path already or is no
/// vertex; where the path is complete with `point`, the path if `point` has
/// the first vertex of the path among its neighbours; else the first cycle
/// found by going on to the neighbours of `point` in their order.
pub open spec fn cycle_from(
    graph: Map<usize, Seq<usize>>,
    size: int,
    point: usize,
    path: Seq<usize>,
) -> Option<
    Seq<usize>,
>
    decreases size - path.len(), 0int, 0int,
{
    if path.len() >= size || path.contains(point) || !graph.contains_key(point) {
        None
    } else if path.len() + 1 == size {
        if graph[point].contains(path.push(point)[0]) {
            Some(path.push(point))
        } else {
            None
        }
    } else {
        cycle_among(graph, size, graph[point], 0, path.push(point))
    }
}

/// The first cycle found by going on from `path` to the vertices of `next`
/// from place `i` on, in their order.
pub open spec fn cycle_among(
    graph: Map<usize, Seq<usize>>,
    size: int,
    next: Seq<usize>,
    i: int,
    path: Seq<usize>,
) -> Option<Seq<usize>>
    decreases size - path.len(), 1int, next.len() - i,
{
    if i < 0 || i >= next.len() {
        None
    } else {
        match cycle_from(graph, size, next[i], path) {
            Some(c) => Some(c),
            None => cycle_among(graph, size, next, i + 1, path),
        }
    }
}

/// The cycle through all vertices that the search finds from `start`.
pub open spec fn hamiltonian_cycle(graph: Map<usize, Seq<usize>>, start: usize) -> Option<Seq<usize>> {
    cycle_from(graph, graph.dom().len() as int, start, Seq::empty())
}

/// `s` is a trail of the graph: it visits no vertex twice, and each vertex
/// but the last has the one that follows it among its neighbours.
pub open spec fn is_trail(graph: Map<usize, Seq<usize>>, s: Seq<usize>) -> bool {
    &&& s.no_duplicates()
    &&& forall|i: int|
        0 <= i < s.len() - 1 ==> graph.contains_key(#[trigger] s[i]) && graph[s[i]].contains(s[i + 1])
}

/// `s` is a cycle through `size` vertices: a trail of `size` vertices whose
/// last vertex has the first among its neighbours.
pub open spec fn is_full_cycle(graph: Map<usize, Seq<usize>>, size: int, s: Seq<usize>) -> bool {
    &&& s.len() == size
    &&& size > 0
    &&& is_trail(graph, s)
    &&& graph.contains_key(s[size - 1])
    &&& graph[s[size - 1]].contains(s[0])
}

/// A cycle that the search finds when it goes on from a trail to a
/// neighbour of the trail's last vertex is a cycle through `size` vertices
/// that begins with the trail and that neighbour.
pub(crate) proof fn lemma_cycle_from_sound(
    graph: Map<usize, Seq<usize>>,
    size: int,
    point: usize,
    path: Seq<usize>,
)
    requires
        is_trail(graph, path),
        path.len() > 0 ==> graph.contains_key(path[path.len() - 1]) && graph[path[path.len() - 1]].contains(point),
        cycle_from(graph, size, point, path) is Some,
    ensures
        is_full_cycle(graph, size, cycle_from(graph, size, point, path)->0),
        path.push(point).is_prefix_of(cycle_from(graph, size, point, path)->0),
    decreases size - path.len(), 0int, 0int,
{
    let longer = path.push(point);
    assert(is_trail(graph, longer)) by {
        assert forall|i: int, j: int| 0 <= i < longer.len() && 0 <= j < longer.len() && i != j implies longer[i]
            != longer[j] by {
            if i < path.len() && j < path.len() {
                assert(path[i] != path[j]);
            } else if i < path.len() {
                assert(path.contains(path[i]));
            } else {
                assert(path.contains(path[j]));
            }
        }
        assert forall|i: int| 0 <= i < longer.len() - 1 implies graph.contains_key(#[trigger] longer[i])
            && graph[longer[i]].contains(longer[i + 1]) by {
            if i < path.len() - 1 {
                assert(longer[i] == path[i]);
                assert(longer[i + 1] == path[i + 1]);
            }
        }
    }
    if path.len() + 1 == size {
        assert(longer.is_prefix_of(longer)) by {
            assert(longer.subrange(0, longer.len() as int) =~= longer);
        }
    } else {
        lemma_cycle_among_sound(graph, size, graph[point], 0, longer);
        let c = cycle_among(graph, size, graph[point], 0, longer)->0;
    }
}

/// A cycle that the search finds when it goes on from a trail to one of the
/// neighbours of its last vertex is a cycle through `size` vertices that
/// begins with the trail.
pub(crate) proof fn lemma_cycle_among_sound(
    graph: Map<usize, Seq<usize>>,
    size: int,
    next: Seq<usize>,
    i: int,
    path: Seq<usize>,
)
    requires
        is_trail(graph, path),
        path.len() > 0,
        graph.contains_key(path[path.len() - 1]),
        next == graph[path[path.len() - 1]],
        cycle_among(graph, size, next, i, path) is Some,
    ensures
        is_full_cycle(graph, size, cycle_among(graph, size, next, i, path)->0),
        path.is_prefix_of(cycle_among(graph, size, next, i, path)->0),
    decreases size - path.len(), 1int, next.len() - i,
{
    if cycle_from(graph, size, next[i], path) is Some {
        assert(next.contains(next[i]));
        lemma_cycle_from_sound(graph, size, next[i], path);
        let c = cycle_from(graph, size, next[i], path)->0;
        let longer = path.push(next[i]);
        assert(path =~= c.subrange(0, path.len() as int)) by {
            assert(longer =~= c.subrange(0, longer.len() as int));
            assert forall|k: int| 0 <= k < path.len() implies path[k] == c[k] by {
                assert(longer[k] == c.subrange(0, longer.len() as int)[k]);
            }
        }
    } else {
        lemma_cycle_among_sound(graph, size, next, i + 1, path);
    }
}

/// Where the search finds no cycle when it goes on from `path` to `point`,
/// no cycle through `size` vertices begins with `path` and `point`.
pub(crate) proof fn lemma_cycle_from_complete(
    graph: Map<usize, Seq<usize>>,
    size: int,
    point: usize,
    path: Seq<usize>,
    c: Seq<usize>,
)
    requires
        cycle_from(graph, size, point, path) is None,
        is_full_cycle(graph, size, c),
    ensures
        !path.push(point).is_prefix_of(c),
    decreases size - path.len(), 0int, 0int,
{
    let longer = path.push(point);
    let n = path.len() as int;
    if longer.is_prefix_of(c) {
        assert(longer =~= c.subrange(0, n + 1));
        assert forall|k: int| 0 <= k <= n implies longer[k] == c[k] by {
            assert(longer[k] == c.subrange(0, n + 1)[k]);
        }
        assert(c[n] == point);
        if path.contains(point) {
            let k = choose|k: int| 0 <= k < path.len() && path[k] == point;
            assert(longer[k] == c[k]);
            assert(c[k] == c[n]);
        }
        if n + 1 == size {
            assert(longer =~= c);
        } else {
            assert(graph.contains_key(c[n]) && graph[c[n]].contains(c[n + 1]));
            let next = graph[point];
            let j = choose|j: int| 0 <= j < next.len() && next[j] == c[n + 1];
            lemma_cycle_among_complete(graph, size, next, 0, longer, c, j);
        }
    }
}

/// Where the search finds no cycle when it goes on from `path` to the
/// vertices of `next` from place `i` on, no cycle through `size` vertices
/// begins with `path` and goes on to one of those.
pub(crate) proof fn lemma_cycle_among_complete(
    graph: Map<usize, Seq<usize>>,
    size: int,
    next: Seq<usize>,
    i: int,
    path: Seq<usize>,
    c: Seq<usize>,
    j: int,
)
    requires
        cycle_among(graph, size, next, i, path) is None,
        is_full_cycle(graph, size, c),
        0 <= i <= j < next.len(),
        path.len() < size,
        next[j] == c[path.len() as int],
    ensures
        !path.is_prefix_of(c),
    decreases size - path.len(), 1int, next.len() - i,
{
    if path.is_prefix_of(c) {
        if i == j {
            lemma_cycle_from_complete(graph, size, next[i], path, c);
            let longer = path.push(next[i]);
            assert(path =~= c.subrange(0, path.len() as int));
            assert forall|k: int| 0 <= k < path.len() implies path[k] == c[k] by {
                assert(path[k] == c.subrange(0, path.len() as int)[k]);
            }
            assert(longer =~= c.subrange(0, longer.len() as int));
        } else {
            lemma_cycle_among_complete(graph, size, next, i + 1, path, c, j);
        }
    }
}

/// What the search from `start` returns: a cycle through all vertices of
/// the graph that begins at `start`, where there is one, and nothing only
/// where there is none.
pub proof fn lemma_hamiltonian_cycle(graph: Map<usize, Seq<usize>>, start: usize)
    ensures
        match hamiltonian_cycle(graph, start) {
            Some(c) => is_full_cycle(graph, graph.dom().len() as int, c) && c[0] == start,
            None => forall|c: Seq<usize>|
                !(#[trigger] is_full_cycle(graph, graph.dom().len() as int, c) && c[0] == start),
        },
{
    let size = graph.dom().len() as int;
    let none = Seq::<usize>::empty();
    match hamiltonian_cycle(graph, start) {
        Some(c) => {
            lemma_cycle_from_sound(graph, size, start, none);
            assert(none.push(start) =~= c.subrange(0, 1));
            assert(none.push(start)[0] == c.subrange(0, 1)[0]);
        },
        None => {
            assert forall|c: Seq<usize>| !(#[trigger] is_full_cycle(graph, size, c) && c[0] == start) by {
                if is_full_cycle(graph, size, c) && c[0] == start {
                    lemma_cycle_from_complete(graph, size, start, none, c);
                    assert(none.push(start) =~= c.subrange(0, 1));
                }
            }
        },
    }
}

/// A cycle through as many vertices as the graph has visits every vertex
/// of the graph.
pub proof fn lemma_full_cycle_visits_all(graph: Map<usize, Seq<usize>>, c: Seq<usize>, v: usize)
    requires
        graph.dom().finite(),
        is_full_cycle(graph, graph.dom().len() as int, c),
        graph.contains_key(v),
    ensures
        c.contains(v),
{
    let visited = c.to_set();
    c.unique_seq_to_set();
    assert forall|k: usize| visited.contains(k) implies graph.dom().contains(k) by {
        let i = choose|i: int| 0 <= i < c.len() && c[i] == k;
        if i < c.len() - 1 {
            assert(graph.contains_key(c[i]));
        }
    }
    vstd::set_lib::lemma_subset_equality(visited, graph.dom());
    assert(visited.contains(v));
}

/// The search is repeatable: on graphs with the same vertices and the
/// same neighbours in the same order, from the same start, it returns the
/// same cycle.
pub proof fn lemma_cycle_is_repeatable(a: Map<usize, Seq<usize>>, b: Map<usize, Seq<usize>>, start: usize)
    requires
        forall|k: usize| a.contains_key(k) == b.contains_key(k),
        forall|k: usize| #[trigger] a.contains_key(k) ==> a[k] == b[k],
    ensures
        hamiltonian_cycle(a, start) == hamiltonian_cycle(b, start),
{
    assert(a =~= b);
}

/// `other` is the index of the cell west, east, north or south of the cell
/// with the index `index`, where that cell lies on the grid.
pub open spec fn names_neighbour(width: int, height: int, index: int, other: int) -> bool {
    ||| (index % width != 0 && other == index - 1)
    ||| (index % width != width - 1 && other == index + 1)
    ||| (index >= width && other == index - width)
    ||| (index < width * (height - 1) && other == index + width)
}

/// The list of neighbours holds the indices west, east, north and south,
/// and no others.
proof fn lemma_neighbours_hold(width: int, height: int, index: int, other: int)
    requires
        width > 0,
        height > 0,
        0 <= index < width * height,
        width * height <= usize::MAX,
        0 <= other <= usize::MAX,
    ensures
        neighbours(width, height, index).contains(other as usize) == names_neighbour(width, height, index, other),
{
    let list = neighbours(width, height, index);
    let west: Seq<usize> = if index % width != 0 { seq![(index - 1) as usize] } else { seq![] };
    let east: Seq<usize> = if index % width != width - 1 { seq![(index + 1) as usize] } else { seq![] };
    let north: Seq<usize> = if index >= width { seq![(index - width) as usize] } else { seq![] };
    let south: Seq<usize> = if index < width * (height - 1) { seq![(index + width) as usize] } else { seq![] };
    let we = west + east;
    let wen = we + north;
    assert(list == wen + south);
    if index == 0 {
        vstd::arithmetic::div_mod::lemma_small_mod(0, width as nat);
    }
    assert(width * (height - 1) + width == width * height) by (nonlinear_arith);
    if list.contains(other as usize) {
        let i = choose|i: int| 0 <= i < list.len() && list[i] == other as usize;
        if i < wen.len() {
            assert(list[i] == wen[i]);
            if i < we.len() {
                assert(wen[i] == we[i]);
                if i < west.len() {
                    assert(we[i] == west[i]);
                } else {
                    assert(we[i] == east[i - west.len()]);
                }
            } else {
                assert(wen[i] == north[i - we.len()]);
            }
        } else {
            assert(list[i] == south[i - wen.len()]);
        }
    }
    if names_neighbour(width, height, index, other) {
        if index % width != 0 && other == index - 1 {
            assert(west[0] == other as usize);
            assert(list[0] == other as usize);
        } else if index % width != width - 1 && other == index + 1 {
            assert(east[0] == other as usize);
            assert(we[west.len() as int] == other as usize);
            assert(list[west.len() as int] == other as usize);
        } else if index >= width && other == index - width {
            assert(north[0] == other as usize);
            assert(wen[we.len() as int] == other as usize);
            assert(list[we.len() as int] == other as usize);
        } else {
            assert(south[0] == other as usize);
            assert(list[wen.len() as int] == other as usize);
        }
    }
}

/// The place of a cell by its index: its index is `y * width + x` for its
/// place `(x, y)`, with `x` below the width and `y` below the height.
proof fn lemma_place_of_index(width: int, height: int, index: int)
    requires
        width > 0,
        height > 0,
        0 <= index <= usize::MAX,
    ensures
        index == (index / width) * width + index % width,
        0 <= index % width < width,
        0 <= index / width,
        (index < width * height) == (index / width < height),
        point_of_index(width, index).x == index % width,
        point_of_index(width, index).y == index / width,
{
    let x = index % width;
    let y = index / width;
    lemma_fundamental_div_mod(index, width);
    lemma_mod_bound(index, width);
    assert(index == y * width + x) by (nonlinear_arith)
        requires
            index == width * y + x,
    ;
    assert(y >= 0) by (nonlinear_arith)
        requires
            index == y * width + x,
            0 <= x < width,
            index >= 0,
    ;
    assert(y <= index) by (nonlinear_arith)
        requires
            index == y * width + x,
            0 <= x,
            y >= 0,
            width >= 1,
    ;
    assert((index < width * height) == (y < height)) by (nonlinear_arith)
        requires
            index == y * width + x,
            0 <= x < width,
            0 <= y,
            height > 0,
    ;
}

/// On a full grid the neighbours of a cell by index are its neighbours by
/// place: a step east or west never leads round the edge into the next
/// row.
pub proof fn lemma_neighbours_are_adjacent(width: int, height: int, index: int, other: int)
    requires
        width > 0,
        height > 0,
        0 <= index < width * height,
        width * height <= usize::MAX,
        0 <= other <= usize::MAX,
    ensures
        neighbours(width, height, index).contains(other as usize) <==> other < width * height && adjacent(
            point_of_index(width, index),
            point_of_index(width, other),
        ),
{
    let x = index % width;
    let y = index / width;
    let ox = other % width;
    let oy = other / width;
    lemma_place_of_index(width, height, index);
    lemma_place_of_index(width, height, other);
    lemma_neighbours_hold(width, height, index, other);
    assert(width * (height - 1) == width * height - width) by (nonlinear_arith);
    assert((index >= width) == (y >= 1)) by (nonlinear_arith)
        requires
            index == y * width + x,
            0 <= x < width,
            0 <= y,
    ;
    assert((index < width * height - width) == (y + 1 < height)) by (nonlinear_arith)
        requires
            index == y * width + x,
            0 <= x < width,
            0 <= y < height,
    ;
    assert((ox == x && oy == y + 1) == (other == index + width)) by (nonlinear_arith)
        requires
            other == oy * width + ox,
            index == y * width + x,
            0 <= x < width,
            0 <= ox < width,
    ;
    assert((ox == x && oy + 1 == y) == (other == index - width)) by (nonlinear_arith)
        requires
            other == oy * width + ox,
            index == y * width + x,
            0 <= x < width,
            0 <= ox < width,
    ;
    assert((oy == y && ox == x + 1) == (other == index + 1 && x != width - 1)) by (nonlinear_arith)
        requires
            other == oy * width + ox,
            index == y * width + x,
            0 <= x < width,
            0 <= ox < width,
    ;
    assert((oy == y && ox + 1 == x) == (other == index - 1 && x != 0)) by (nonlinear_arith)
        requires
            other == oy * width + ox,
            index == y * width + x,
            0 <= x < width,
            0 <= ox < width,
    ;
}

} // verus!
