//! Loops on a board: the smallest loop through two cells, the widening of a
//! loop at an edge, and what growing a loop keeps.

use vstd::prelude::*;
use vstd::set_lib::{lemma_int_range, lemma_len_subset, set_int_range};
use crate::common::{
    Point, in_grid, is_free, adjacent, grid_ok, width_of, height_of, offset_point, cell, cells, point_of_index,
    index_of_point, lemma_point_round_trip,
};
use crate::search::search_result;

verus! {

/// The board with the cell `p` marked with `v`.
pub open spec fn with_cell(grid: Seq<Seq<i8>>, p: Point, v: i8) -> Seq<Seq<i8>> {
    grid.update(p.x as int, grid[p.x as int].update(p.y as int, v))
}

/// The board with the cells `a` and `b` made free.
pub open spec fn masked(grid: Seq<Seq<i8>>, a: Point, b: Point) -> Seq<Seq<i8>> {
    with_cell(with_cell(grid, a, 0), b, 0)
}

/// The marker of the complement: a blocked cell becomes free and every
/// other cell blocked.
pub open spec fn flipped(v: i8) -> i8 {
    if v == 1 { 0 } else { 1 }
}

/// The complement of a board.
pub open spec fn complement(grid: Seq<Seq<i8>>) -> Seq<Seq<i8>> {
    Seq::new(grid.len(), |x: int| Seq::new(grid[x].len(), |y: int| flipped(grid[x][y])))
}

/// A path without its two ends.
pub open spec fn interior(s: Seq<Point>) -> Seq<Point> {
    if s.len() >= 2 { s.subrange(1, s.len() - 1) } else { Seq::empty() }
}

/// The smallest loop through `a` and `b`: the shortest path from `a` to `b`
/// on the board with both made free, then the inner cells of the shortest
/// path from `b` back to `a` on the complement of the board. There is none
/// where the board is empty or not rectangular, where `a` or `b` lies off
/// it, or where one of the two paths does not exist.
pub open spec fn seed_cycle(grid: Seq<Seq<i8>>, a: Point, b: Point) -> Option<Seq<Point>> {
    if grid_ok(grid) && in_grid(grid, a) && in_grid(grid, b) {
        match (search_result(masked(grid, a, b), a, b), search_result(complement(grid), b, a)) {
            (Some(out), Some(back)) => Some(out + interior(back)),
            _ => None,
        }
    } else {
        None
    }
}

/// The place behind the edge `i` of a loop of `len` cells, where new cells
/// are put in: `i + 1`, or the front for the edge that closes the loop.
pub open spec fn place_after(i: int, len: int) -> int {
    if i + 1 == len { 0 } else { i + 1 }
}

/// The two cells beside the edge `i` of the loop, on the side `sign`: the
/// edge's two ends, each moved by `sign` across the edge. An edge along `x`
/// (its ends share `y`) is moved in `y`; any other edge is moved in `x`.
pub open spec fn bulge(grid: Seq<Seq<i8>>, s: Seq<Point>, i: int, sign: int) -> Option<(Point, Point)> {
    let p = s[i];
    let q = s[place_after(i, s.len() as int)];
    let dx = if p.y == q.y { 0 } else { sign };
    let dy = if p.y == q.y { sign } else { 0 };
    match (
        offset_point(p, width_of(grid), height_of(grid), dx, dy),
        offset_point(q, width_of(grid), height_of(grid), dx, dy),
    ) {
        (Some(a), Some(b)) => Some((a, b)),
        _ => None,
    }
}

/// Two cells may be put into the loop: both are free and neither is on the
/// loop already.
pub open spec fn fits(grid: Seq<Seq<i8>>, s: Seq<Point>, pair: (Point, Point)) -> bool {
    &&& is_free(grid, pair.0)
    &&& is_free(grid, pair.1)
    &&& !s.contains(pair.0)
    &&& !s.contains(pair.1)
}

/// The two cells by which the loop is widened at the edge `i`: those on the
/// side `+1` if they fit, else those on the side `-1` if they fit.
pub open spec fn chosen_bulge(grid: Seq<Seq<i8>>, s: Seq<Point>, i: int) -> Option<(Point, Point)> {
    if !(grid_ok(grid) && 0 <= i < s.len()) {
        None
    } else if bulge(grid, s, i, 1) is Some && fits(grid, s, bulge(grid, s, i, 1)->0) {
        bulge(grid, s, i, 1)
    } else if bulge(grid, s, i, -1) is Some && fits(grid, s, bulge(grid, s, i, -1)->0) {
        bulge(grid, s, i, -1)
    } else {
        None
    }
}

/// The loop widened at the edge `i`, or as it was where no two cells fit.
pub open spec fn widened(grid: Seq<Seq<i8>>, s: Seq<Point>, i: int) -> Seq<Point> {
    match chosen_bulge(grid, s, i) {
        Some((a, b)) => s.insert(place_after(i, s.len() as int), b).insert(place_after(i, s.len() as int), a),
        None => s,
    }
}

/// The edge that is looked at in step `i` of a scan that begins at the edge
/// `offset`.
pub open spec fn scan_edge(offset: int, i: int, len: int) -> int {
    (offset + i) % len
}

/// The first edge at which the loop can be widened, in a scan of all edges
/// that begins at the edge `offset` and has come to step `i`.
pub open spec fn first_wide_edge(grid: Seq<Seq<i8>>, s: Seq<Point>, offset: int, i: int) -> Option<int>
    decreases s.len() - i,
{
    if i < 0 || i >= s.len() {
        None
    } else if chosen_bulge(grid, s, scan_edge(offset, i, s.len() as int)) is Some {
        Some(scan_edge(offset, i, s.len() as int))
    } else {
        first_wide_edge(grid, s, offset, i + 1)
    }
}

/// The loop after one scan that begins at the edge `offset`: widened at the
/// first edge that allows it.
pub open spec fn scanned(grid: Seq<Seq<i8>>, s: Seq<Point>, offset: int) -> Seq<Point> {
    match first_wide_edge(grid, s, offset, 0) {
        Some(e) => widened(grid, s, e),
        None => s,
    }
}

/// The loop after one scan for each of `offsets` in turn.
pub open spec fn grown(grid: Seq<Seq<i8>>, s: Seq<Point>, offsets: Seq<int>) -> Seq<Point>
    decreases offsets.len(),
{
    if offsets.len() == 0 {
        s
    } else {
        scanned(grid, grown(grid, s, offsets.drop_last()), offsets.last())
    }
}

/// The loop cannot be widened at any edge.
pub open spec fn is_full(grid: Seq<Seq<i8>>, s: Seq<Point>) -> bool {
    forall|i: int| 0 <= i < s.len() ==> #[trigger] chosen_bulge(grid, s, i) is None
}

/// `c` is the smallest loop through `a` and `b` after one scan for each of
/// some offsets, and cannot be widened any more.
pub open spec fn is_grown_seed(grid: Seq<Seq<i8>>, a: Point, b: Point, c: Seq<Point>) -> bool {
    &&& seed_cycle(grid, a, b) is Some
    &&& exists|offsets: Seq<int>|
        c == #[trigger] grown(grid, seed_cycle(grid, a, b)->0, offsets) && forall|i: int|
            0 <= i < offsets.len() ==> 0 <= #[trigger] offsets[i]
    &&& is_full(grid, c)
}

/// Every free cell of the board is on the loop.
pub open spec fn covers_free(grid: Seq<Seq<i8>>, s: Seq<Point>) -> bool {
    forall|p: Point| #[trigger] is_free(grid, p) ==> s.contains(p)
}

/// A closed loop on the board: every cell lies on the board and is next to
/// the one that follows it, the last one next to the first.
pub open spec fn is_loop(grid: Seq<Seq<i8>>, s: Seq<Point>) -> bool {
    &&& s.len() >= 2
    &&& forall|i: int| 0 <= i < s.len() ==> in_grid(grid, #[trigger] s[i])
    &&& forall|i: int| 0 <= i < s.len() ==> adjacent(#[trigger] s[i], s[place_after(i, s.len() as int)])
}

/// The board with two cells made free has the cells of the board, and
/// marks every other cell as the board does.
pub(crate) proof fn lemma_masked(grid: Seq<Seq<i8>>, a: Point, b: Point)
    requires
        grid_ok(grid),
        in_grid(grid, a),
        in_grid(grid, b),
    ensures
        grid_ok(masked(grid, a, b)),
        width_of(masked(grid, a, b)) == width_of(grid),
        height_of(masked(grid, a, b)) == height_of(grid),
        forall|p: Point| in_grid(masked(grid, a, b), p) == in_grid(grid, p),
        forall|p: Point|
            in_grid(grid, p) ==> #[trigger] cell(masked(grid, a, b), p) == (if p == a || p == b {
                0i8
            } else {
                cell(grid, p)
            }),
        masked(grid, a, b).len() == grid.len(),
        forall|i: int| 0 <= i < grid.len() ==> (#[trigger] masked(grid, a, b)[i]).len() == grid[i].len(),
{
    let one = with_cell(grid, a, 0);
    let two = masked(grid, a, b);
    assert(one[0].len() == grid[0].len());
    assert(two[0].len() == grid[0].len());
    assert forall|i: int| 0 <= i < two.len() implies (#[trigger] two[i]).len() == two[0].len() by {
        assert(grid[i].len() == grid[0].len());
        assert(one[i].len() == grid[i].len());
    }
    assert forall|p: Point| in_grid(grid, p) implies #[trigger] cell(two, p) == (if p == a || p == b {
        0i8
    } else {
        cell(grid, p)
    }) by {
        assert(grid[p.x as int].len() == grid[0].len());
        assert(grid[a.x as int].len() == grid[0].len());
        assert(grid[b.x as int].len() == grid[0].len());
    }
}

/// The complement of a board has the cells of the board, and a cell is free
/// on it exactly if it is blocked on the board.
pub(crate) proof fn lemma_complement(grid: Seq<Seq<i8>>)
    requires
        grid_ok(grid),
    ensures
        grid_ok(complement(grid)),
        width_of(complement(grid)) == width_of(grid),
        height_of(complement(grid)) == height_of(grid),
        forall|p: Point| in_grid(complement(grid), p) == in_grid(grid, p),
        forall|p: Point| in_grid(grid, p) ==> #[trigger] is_free(complement(grid), p) == !is_free(grid, p),
{
    let other = complement(grid);
    assert(other[0].len() == grid[0].len());
    assert forall|i: int| 0 <= i < other.len() implies (#[trigger] other[i]).len() == other[0].len() by {
        assert(grid[i].len() == grid[0].len());
    }
    assert forall|p: Point| in_grid(grid, p) implies #[trigger] is_free(other, p) == !is_free(grid, p) by {
        assert(grid[p.x as int].len() == grid[0].len());
    }
}

/// Every cell of a walk on the board with `a` and `b` made free is `a` or
/// `b` or a free cell of the board itself.
pub(crate) proof fn lemma_way_out_cell(grid: Seq<Seq<i8>>, a: Point, b: Point, out: Seq<Point>, i: int)
    requires
        grid_ok(grid),
        in_grid(grid, a),
        in_grid(grid, b),
        crate::walk::is_walk(masked(grid, a, b), out),
        out[0] == a,
        0 <= i < out.len(),
    ensures
        in_grid(grid, out[i]),
        out[i] == a || out[i] == b || is_free(grid, out[i]),
{
    lemma_masked(grid, a, b);
    if i > 0 {
        assert(is_free(masked(grid, a, b), out[i]));
        assert(in_grid(grid, out[i]));
        if out[i] != a && out[i] != b {
            assert(cell(masked(grid, a, b), out[i]) == cell(grid, out[i]));
        }
    }
}

/// Every cell but the first of a walk on the complement of the board is a
/// blocked cell of the board itself.
pub(crate) proof fn lemma_way_back_cell(grid: Seq<Seq<i8>>, back: Seq<Point>, j: int)
    requires
        grid_ok(grid),
        crate::walk::is_walk(complement(grid), back),
        1 <= j < back.len(),
    ensures
        in_grid(grid, back[j]),
        !is_free(grid, back[j]),
{
    lemma_complement(grid);
    assert(is_free(complement(grid), back[j]));
    assert(in_grid(grid, back[j]));
}

/// Two walks joined into a loop: the second without its ends behind the
/// first.
proof fn lemma_joined_is_loop(grid: Seq<Seq<i8>>, out: Seq<Point>, back: Seq<Point>)
    requires
        out.len() >= 2,
        back.len() >= 2,
        out[0] == back[back.len() - 1],
        out[out.len() - 1] == back[0],
        forall|i: int| 0 <= i < out.len() ==> in_grid(grid, #[trigger] out[i]),
        forall|i: int| 0 <= i < back.len() ==> in_grid(grid, #[trigger] back[i]),
        forall|i: int| #![trigger out[i]] 1 <= i < out.len() ==> adjacent(out[i - 1], out[i]),
        forall|i: int| #![trigger back[i]] 1 <= i < back.len() ==> adjacent(back[i - 1], back[i]),
    ensures
        is_loop(grid, out + interior(back)),
{
    let inner = interior(back);
    let s = out + inner;
    let n = out.len() as int;
    let len = s.len() as int;
    assert forall|i: int| 0 <= i < s.len() implies in_grid(grid, #[trigger] s[i]) by {
        if i < n {
            assert(s[i] == out[i]);
        } else {
            assert(s[i] == back[i - n + 1]);
        }
    }
    assert forall|i: int| 0 <= i < s.len() implies adjacent(#[trigger] s[i], s[place_after(i, len)]) by {
        if i + 1 < n {
            assert(s[i] == out[i] && s[i + 1] == out[i + 1]);
            assert(adjacent(out[i + 1 - 1], out[i + 1]));
        } else if i + 1 == n {
            assert(s[i] == back[0]);
            assert(adjacent(back[1 - 1], back[1]));
            if inner.len() == 0 {
                assert(s[0] == out[0]);
            } else {
                assert(s[i + 1] == back[1]);
            }
        } else {
            let m = i - n + 1;
            assert(s[i] == back[m]);
            assert(adjacent(back[m + 1 - 1], back[m + 1]));
            if i + 1 == len {
                assert(s[0] == out[0]);
            } else {
                assert(s[i + 1] == back[m + 1]);
            }
        }
    }
}

/// The smallest loop visits no cell twice and stays on the board, whatever
/// the two paths it is made of, as long as neither visits a cell twice;
/// where its two cells differ it is a closed loop. The way out runs over
/// free cells and the way back over blocked ones, so the two cannot meet.
pub(crate) proof fn lemma_seed_is_simple(
    grid: Seq<Seq<i8>>,
    a: Point,
    b: Point,
    out: Seq<Point>,
    back: Seq<Point>,
)
    requires
        grid_ok(grid),
        in_grid(grid, a),
        in_grid(grid, b),
        crate::walk::connects(masked(grid, a, b), a, b, out),
        out.no_duplicates(),
        crate::walk::connects(complement(grid), b, a, back),
        back.no_duplicates(),
    ensures
        (out + interior(back)).no_duplicates(),
        forall|i: int| 0 <= i < (out + interior(back)).len() ==> in_grid(grid, #[trigger] (out + interior(back))[i]),
        a != b ==> is_loop(grid, out + interior(back)),
{
    let inner = interior(back);
    let s = out + inner;
    let n = out.len() as int;
    assert forall|i: int| 0 <= i < s.len() implies in_grid(grid, #[trigger] s[i]) by {
        if i < n {
            assert(s[i] == out[i]);
            lemma_way_out_cell(grid, a, b, out, i);
        } else {
            assert(s[i] == back[i - n + 1]);
            lemma_way_back_cell(grid, back, i - n + 1);
        }
    }
    assert forall|i: int, j: int| 0 <= i < s.len() && 0 <= j < s.len() && i != j implies s[i] != s[j] by {
        if i < n && j < n {
            assert(s[i] == out[i] && s[j] == out[j]);
        } else if i >= n && j >= n {
            assert(s[i] == back[i - n + 1] && s[j] == back[j - n + 1]);
        } else {
            let (lo, hi) = if i < n { (i, j) } else { (j, i) };
            let m = hi - n + 1;
            assert(s[lo] == out[lo]);
            assert(s[hi] == back[m]);
            assert(back[m] != back[0]);
            assert(back[m] != back[back.len() - 1]);
            lemma_way_out_cell(grid, a, b, out, lo);
            lemma_way_back_cell(grid, back, m);
        }
    }
    if a != b {
        assert forall|i: int| 0 <= i < out.len() implies in_grid(grid, #[trigger] out[i]) by {
            lemma_way_out_cell(grid, a, b, out, i);
        }
        assert forall|i: int| 0 <= i < back.len() implies in_grid(grid, #[trigger] back[i]) by {
            if i >= 1 {
                lemma_way_back_cell(grid, back, i);
            }
        }
        lemma_joined_is_loop(grid, out, back);
    }
}

/// Where the cells of a sequence stand after two cells were put in at one
/// place.
pub(crate) proof fn lemma_insert_two(s: Seq<Point>, place: int, a: Point, b: Point)
    requires
        0 <= place <= s.len(),
    ensures
        s.insert(place, b).insert(place, a).len() == s.len() + 2,
        s.insert(place, b).insert(place, a)[place] == a,
        s.insert(place, b).insert(place, a)[place + 1] == b,
        forall|j: int| 0 <= j < place ==> #[trigger] s.insert(place, b).insert(place, a)[j] == s[j],
        forall|j: int| place + 2 <= j < s.len() + 2 ==> #[trigger] s.insert(place, b).insert(place, a)[j] == s[j - 2],
{
    let one = s.insert(place, b);
    s.insert_ensures(place, b);
    one.insert_ensures(place, a);
    let two = one.insert(place, a);
    assert forall|j: int| place + 2 <= j < s.len() + 2 implies #[trigger] two[j] == s[j - 2] by {
        assert(two[(j - 1) + 1] == one[j - 1]);
        assert(one[(j - 2) + 1] == s[j - 2]);
    }
}

/// The first of the two cells by which the loop is widened at the edge `i`.
pub open spec fn first_new(grid: Seq<Seq<i8>>, s: Seq<Point>, i: int) -> Point {
    match chosen_bulge(grid, s, i) {
        Some((a, _)) => a,
        None => s[i],
    }
}

/// The second of the two cells by which the loop is widened at the edge `i`.
pub open spec fn second_new(grid: Seq<Seq<i8>>, s: Seq<Point>, i: int) -> Point {
    match chosen_bulge(grid, s, i) {
        Some((_, b)) => b,
        None => s[i],
    }
}

/// A sequence with two cells put in holds the cells it held and the two.
pub(crate) proof fn lemma_insert_two_members(s: Seq<Point>, place: int, a: Point, b: Point)
    requires
        0 <= place <= s.len(),
    ensures
        forall|p: Point| s.insert(place, b).insert(place, a).contains(p) <==> s.contains(p) || p == a || p == b,
{
    let w = s.insert(place, b).insert(place, a);
    lemma_insert_two(s, place, a, b);
    assert forall|p: Point| w.contains(p) <==> s.contains(p) || p == a || p == b by {
        if w.contains(p) {
            let j = choose|j: int| 0 <= j < w.len() && w[j] == p;
            if j < place {
                assert(s[j] == p);
            } else if j >= place + 2 {
                assert(s[j - 2] == p);
            }
        }
        if s.contains(p) {
            let j = choose|j: int| 0 <= j < s.len() && s[j] == p;
            if j < place {
                assert(w[j] == p);
            } else {
                assert(w[j + 2] == p);
            }
        }
        if p == a {
            assert(w[place] == p);
        }
        if p == b {
            assert(w[place + 1] == p);
        }
    }
}

/// A sequence without repeats stays without repeats when two different
/// cells are put in that it did not hold.
pub(crate) proof fn lemma_insert_two_simple(s: Seq<Point>, place: int, a: Point, b: Point)
    requires
        0 <= place <= s.len(),
        s.no_duplicates(),
        !s.contains(a),
        !s.contains(b),
        a != b,
    ensures
        s.insert(place, b).insert(place, a).no_duplicates(),
{
    let w = s.insert(place, b).insert(place, a);
    lemma_insert_two(s, place, a, b);
    assert forall|j: int, k: int| 0 <= j < w.len() && 0 <= k < w.len() && j != k implies w[j] != w[k] by {
        let sj = if j < place { j } else { j - 2 };
        let sk = if k < place { k } else { k - 2 };
        if j != place && j != place + 1 {
            assert(w[j] == s[sj]);
            assert(s.contains(s[sj]));
        }
        if k != place && k != place + 1 {
            assert(w[k] == s[sk]);
            assert(s.contains(s[sk]));
        }
    }
}

/// A closed loop stays closed when two cells of the board are put in
/// behind an edge that lead from the edge's first end to its second.
pub(crate) proof fn lemma_insert_two_loop(grid: Seq<Seq<i8>>, s: Seq<Point>, i: int, a: Point, b: Point)
    requires
        is_loop(grid, s),
        0 <= i < s.len(),
        in_grid(grid, a),
        in_grid(grid, b),
        adjacent(s[i], a),
        adjacent(a, b),
        adjacent(b, s[place_after(i, s.len() as int)]),
    ensures
        is_loop(
            grid,
            s.insert(place_after(i, s.len() as int), b).insert(place_after(i, s.len() as int), a),
        ),
{
    let n = s.len() as int;
    let place = place_after(i, n);
    let w = s.insert(place, b).insert(place, a);
    lemma_insert_two(s, place, a, b);
    let m = w.len() as int;
    assert forall|j: int| 0 <= j < w.len() implies in_grid(grid, #[trigger] w[j]) by {
        if j < place {
            assert(w[j] == s[j]);
        } else if j >= place + 2 {
            assert(w[j] == s[j - 2]);
        }
    }
    assert forall|j: int| 0 <= j < w.len() implies adjacent(#[trigger] w[j], w[place_after(j, m)]) by {
        if place == 0 {
            if j == 0 {
            } else if j == 1 {
                assert(w[2] == s[0]);
            } else if j == m - 1 {
                assert(w[j] == s[j - 2]);
            } else {
                assert(w[j] == s[j - 2]);
                assert(w[j + 1] == s[j - 1]);
                assert(adjacent(s[j - 2], s[place_after(j - 2, n)]));
            }
        } else {
            if j < i {
                assert(w[j] == s[j]);
                assert(w[j + 1] == s[j + 1]);
                assert(adjacent(s[j], s[place_after(j, n)]));
            } else if j == i {
                assert(w[j] == s[j]);
            } else if j == i + 1 {
            } else if j == i + 2 {
                assert(w[j + 1] == s[j - 1]);
            } else if j == m - 1 {
                assert(w[j] == s[j - 2]);
                assert(w[0] == s[0]);
                assert(adjacent(s[n - 1], s[place_after(n - 1, n)]));
            } else {
                assert(w[j] == s[j - 2]);
                assert(w[j + 1] == s[j - 1]);
                assert(adjacent(s[j - 2], s[place_after(j - 2, n)]));
            }
        }
    }
}

/// The two cells beside an edge lead from the edge's first end to its
/// second as the edge does: each lies next to its end, and the two are as
/// far apart as the ends are.
pub(crate) proof fn lemma_bulge_shape(grid: Seq<Seq<i8>>, s: Seq<Point>, i: int, sign: int)
    requires
        0 <= i < s.len(),
        sign == 1 || sign == -1,
        bulge(grid, s, i, sign) is Some,
    ensures
        ({
            let p = s[i];
            let q = s[place_after(i, s.len() as int)];
            match bulge(grid, s, i, sign) {
                Some((a, b)) => adjacent(p, a) && adjacent(b, q) && crate::common::manhattan(a, b)
                    == crate::common::manhattan(p, q),
                None => true,
            }
        }),
{
}

/// What widening a loop at an edge does: the loop gets two cells longer and
/// holds the cells it held and the two new ones, which are free cells of
/// the board; a closed loop stays a closed loop, and one that visits no
/// cell twice still visits none twice.
pub proof fn lemma_widened(grid: Seq<Seq<i8>>, s: Seq<Point>, i: int)
    requires
        chosen_bulge(grid, s, i) is Some,
    ensures
        widened(grid, s, i).len() == s.len() + 2,
        forall|p: Point|
            widened(grid, s, i).contains(p) <==> s.contains(p) || p == first_new(grid, s, i) || p == second_new(
                grid,
                s,
                i,
            ),
        is_free(grid, first_new(grid, s, i)),
        is_free(grid, second_new(grid, s, i)),
        !s.contains(first_new(grid, s, i)),
        !s.contains(second_new(grid, s, i)),
        is_loop(grid, s) ==> is_loop(grid, widened(grid, s, i)),
        is_loop(grid, s) && s.no_duplicates() ==> widened(grid, s, i).no_duplicates(),
{
    let a = first_new(grid, s, i);
    let b = second_new(grid, s, i);
    let n = s.len() as int;
    let place = place_after(i, n);
    lemma_insert_two(s, place, a, b);
    lemma_insert_two_members(s, place, a, b);
    if bulge(grid, s, i, 1) is Some && fits(grid, s, bulge(grid, s, i, 1)->0) {
        lemma_bulge_shape(grid, s, i, 1);
    } else {
        lemma_bulge_shape(grid, s, i, -1);
    }
    if is_loop(grid, s) {
        assert(adjacent(s[i], s[place]));
        lemma_insert_two_loop(grid, s, i, a, b);
        if s.no_duplicates() {
            assert(s[i] != s[place]);
            lemma_insert_two_simple(s, place, a, b);
        }
    }
}

/// The free cells of the board that are not on the loop, by their row-major
/// indices.
pub open spec fn uncovered(grid: Seq<Seq<i8>>, s: Seq<Point>) -> Set<int> {
    Set::new(
        |i: int|
            0 <= i < cells(grid) && is_free(grid, point_of_index(width_of(grid), i)) && !s.contains(
                point_of_index(width_of(grid), i),
            ),
    )
}

/// The free cells off the loop are finitely many, and widening the loop
/// leaves fewer of them.
pub(crate) proof fn lemma_widened_covers_more(grid: Seq<Seq<i8>>, s: Seq<Point>, i: int)
    requires
        chosen_bulge(grid, s, i) is Some,
    ensures
        uncovered(grid, s).finite(),
        uncovered(grid, widened(grid, s, i)).finite(),
        uncovered(grid, widened(grid, s, i)).len() < uncovered(grid, s).len(),
{
    let a = first_new(grid, s, i);
    let w = widened(grid, s, i);
    let width = width_of(grid);
    lemma_widened(grid, s, i);
    let k = index_of_point(width, a);
    crate::common::lemma_index_in_range(grid, a);
    lemma_point_round_trip(width, a);
    assert(cells(grid) >= 0);
    lemma_int_range(0, cells(grid));
    let all = set_int_range(0, cells(grid));
    let before = uncovered(grid, s);
    let after = uncovered(grid, w);
    assert(before.subset_of(all));
    lemma_len_subset(before, all);
    assert(point_of_index(width, k) == a);
    assert(before.contains(k));
    assert forall|j: int| after.contains(j) implies before.remove(k).contains(j) by {
        let p = point_of_index(width, j);
        assert(!w.contains(p));
        assert(!s.contains(p));
        assert(w.contains(a));
    }
    lemma_len_subset(after, before.remove(k));
}

/// The free cells off a loop are finitely many.
pub(crate) proof fn lemma_uncovered_finite(grid: Seq<Seq<i8>>, s: Seq<Point>)
    ensures
        uncovered(grid, s).finite(),
{
    if cells(grid) >= 0 {
        lemma_int_range(0, cells(grid));
        assert(uncovered(grid, s).subset_of(set_int_range(0, cells(grid))));
        lemma_len_subset(uncovered(grid, s), set_int_range(0, cells(grid)));
    } else {
        assert(uncovered(grid, s) =~= Set::empty());
    }
}

/// The edge looked at in step `i` of a scan, without a sum that could leave
/// the machine's word.
pub(crate) proof fn lemma_scan_edge(offset: int, i: int, len: int)
    requires
        0 <= offset,
        0 <= i < len,
    ensures
        0 <= scan_edge(offset, i, len) < len,
        scan_edge(offset, i, len) == if i < len - offset % len {
            offset % len + i
        } else {
            i - (len - offset % len)
        },
{
    let q = offset / len;
    let b = offset % len;
    vstd::arithmetic::div_mod::lemma_fundamental_div_mod(offset, len);
    vstd::arithmetic::div_mod::lemma_mod_bound(offset, len);
    if i < len - b {
        assert(offset + i == q * len + (b + i)) by (nonlinear_arith)
            requires
                offset == len * q + b,
        ;
        vstd::arithmetic::div_mod::lemma_fundamental_div_mod_converse(offset + i, len, q, b + i);
    } else {
        assert(offset + i == (q + 1) * len + (b + i - len)) by (nonlinear_arith)
            requires
                offset == len * q + b,
        ;
        vstd::arithmetic::div_mod::lemma_fundamental_div_mod_converse(offset + i, len, q + 1, b + i - len);
    }
}

/// Every edge is looked at in some step of a scan.
pub(crate) proof fn lemma_scan_reaches(offset: int, edge: int, len: int) -> (i: int)
    requires
        0 <= offset,
        0 <= edge < len,
    ensures
        0 <= i < len,
        scan_edge(offset, i, len) == edge,
{
    let b = offset % len;
    vstd::arithmetic::div_mod::lemma_mod_bound(offset, len);
    let i = if edge >= b { edge - b } else { edge - b + len };
    lemma_scan_edge(offset, i, len);
    i
}

/// What the first edge found by a scan is: an edge at which the loop can
/// be widened; and where the scan finds none, none is left in the steps
/// from `i` on.
pub(crate) proof fn lemma_first_wide_edge(grid: Seq<Seq<i8>>, s: Seq<Point>, offset: int, i: int)
    requires
        0 <= offset,
        0 <= i,
    ensures
        match first_wide_edge(grid, s, offset, i) {
            Some(e) => 0 <= e < s.len() && chosen_bulge(grid, s, e) is Some,
            None => forall|j: int|
                i <= j < s.len() ==> chosen_bulge(grid, s, #[trigger] scan_edge(offset, j, s.len() as int)) is None,
        },
    decreases s.len() - i,
{
    if i < s.len() {
        lemma_scan_edge(offset, i, s.len() as int);
        if chosen_bulge(grid, s, scan_edge(offset, i, s.len() as int)) is None {
            lemma_first_wide_edge(grid, s, offset, i + 1);
        }
    }
}

/// A scan that finds no edge shows that the loop cannot be widened at all.
pub proof fn lemma_scan_none_is_full(grid: Seq<Seq<i8>>, s: Seq<Point>, offset: int)
    requires
        0 <= offset,
        first_wide_edge(grid, s, offset, 0) is None,
    ensures
        is_full(grid, s),
{
    lemma_first_wide_edge(grid, s, offset, 0);
    assert forall|e: int| 0 <= e < s.len() implies #[trigger] chosen_bulge(grid, s, e) is None by {
        let i = lemma_scan_reaches(offset, e, s.len() as int);
        assert(chosen_bulge(grid, s, scan_edge(offset, i, s.len() as int)) is None);
    }
}

/// Every free cell is named by an index of the loop.
pub open spec fn covers_free_indices(grid: Seq<Seq<i8>>, v: Seq<usize>) -> bool {
    forall|k: int|
        0 <= k < cells(grid) && is_free(grid, #[trigger] point_of_index(width_of(grid), k)) ==> v.contains(k as usize)
}

/// A loop on the board whose indices name every free cell visits every free
/// cell.
pub(crate) proof fn lemma_covers_by_indices(grid: Seq<Seq<i8>>, s: Seq<Point>, v: Seq<usize>)
    requires
        grid_ok(grid),
        cells(grid) <= usize::MAX,
        forall|i: int| 0 <= i < s.len() ==> in_grid(grid, #[trigger] s[i]),
        v == crate::astar::indices_of(width_of(grid), s),
    ensures
        covers_free_indices(grid, v) == covers_free(grid, s),
{
    let width = width_of(grid);
    if covers_free_indices(grid, v) {
        assert forall|p: Point| #[trigger] is_free(grid, p) implies s.contains(p) by {
            let k = index_of_point(width, p);
            crate::common::lemma_index_in_range(grid, p);
            lemma_point_round_trip(width, p);
            assert(is_free(grid, point_of_index(width, k)));
            assert(v.contains(k as usize));
            let j = choose|j: int| 0 <= j < v.len() && v[j] == k as usize;
            crate::common::lemma_index_in_range(grid, s[j]);
            lemma_point_round_trip(width, s[j]);
            assert(s[j] == p);
        }
    }
    if covers_free(grid, s) {
        assert forall|k: int|
            0 <= k < cells(grid) && is_free(grid, #[trigger] point_of_index(width, k)) implies v.contains(
            k as usize,
        ) by {
            let p = point_of_index(width, k);
            assert(s.contains(p));
            let j = choose|j: int| 0 <= j < s.len() && s[j] == p;
            crate::common::lemma_index_round_trip(width, k);
            assert(index_of_point(width, p) == k);
            assert(v[j] == k as usize);
        }
    }
}

/// Growing a loop is repeatable: the same draws on the same board lead
/// from the same loop to the same loop.
pub proof fn lemma_grown_is_repeatable(grid: Seq<Seq<i8>>, s: Seq<Point>, first: Seq<int>, second: Seq<int>)
    requires
        first.len() == second.len(),
        forall|i: int| 0 <= i < first.len() ==> first[i] == second[i],
    ensures
        grown(grid, s, first) == grown(grid, s, second),
{
    assert(first =~= second);
}

/// The smallest loop through two cells, where there is one, begins at the
/// first of them, stays on the board and visits no cell twice; where the
/// two cells differ it is a closed loop.
pub proof fn lemma_seed_cycle(grid: Seq<Seq<i8>>, a: Point, b: Point)
    requires
        seed_cycle(grid, a, b) is Some,
    ensures
        seed_cycle(grid, a, b)->0.len() >= 1,
        seed_cycle(grid, a, b)->0[0] == a,
        seed_cycle(grid, a, b)->0.no_duplicates(),
        forall|i: int|
            0 <= i < seed_cycle(grid, a, b)->0.len() ==> in_grid(grid, #[trigger] seed_cycle(grid, a, b)->0[i]),
        a != b ==> is_loop(grid, seed_cycle(grid, a, b)->0),
{
    lemma_masked(grid, a, b);
    lemma_complement(grid);
    crate::optimal::lemma_search_result(masked(grid, a, b), a, b);
    crate::optimal::lemma_search_result(complement(grid), b, a);
    let out = search_result(masked(grid, a, b), a, b)->0;
    let back = search_result(complement(grid), b, a)->0;
    crate::walk::lemma_shortest_is_simple(masked(grid, a, b), a, b, out);
    crate::walk::lemma_shortest_is_simple(complement(grid), b, a, back);
    lemma_seed_is_simple(grid, a, b, out, back);
    assert((out + interior(back))[0] == out[0]);
}

/// One scan leaves a closed loop that visits no cell twice as such a loop.
pub(crate) proof fn lemma_scanned_keeps_loop(grid: Seq<Seq<i8>>, s: Seq<Point>, offset: int)
    requires
        0 <= offset,
        is_loop(grid, s),
        s.no_duplicates(),
    ensures
        is_loop(grid, scanned(grid, s, offset)),
        scanned(grid, s, offset).no_duplicates(),
        scanned(grid, s, offset).len() >= s.len(),
{
    lemma_first_wide_edge(grid, s, offset, 0);
    match first_wide_edge(grid, s, offset, 0) {
        Some(e) => {
            lemma_widened(grid, s, e);
        },
        None => {},
    }
}

/// However often a closed loop that visits no cell twice is widened, it
/// stays such a loop.
pub proof fn lemma_grown_keeps_loop(grid: Seq<Seq<i8>>, s: Seq<Point>, offsets: Seq<int>)
    requires
        is_loop(grid, s),
        s.no_duplicates(),
        forall|i: int| 0 <= i < offsets.len() ==> 0 <= #[trigger] offsets[i],
    ensures
        is_loop(grid, grown(grid, s, offsets)),
        grown(grid, s, offsets).no_duplicates(),
        grown(grid, s, offsets).len() >= s.len(),
    decreases offsets.len(),
{
    if offsets.len() > 0 {
        lemma_grown_keeps_loop(grid, s, offsets.drop_last());
        lemma_scanned_keeps_loop(grid, grown(grid, s, offsets.drop_last()), offsets.last());
    }
}

/// A closed loop on the board that visits every free cell and no cell
/// twice, and none but free cells, has as many cells as the board has free
/// ones.
pub proof fn lemma_full_cover_counts(grid: Seq<Seq<i8>>, s: Seq<Point>)
    requires
        s.no_duplicates(),
        covers_free(grid, s),
        forall|i: int| 0 <= i < s.len() ==> is_free(grid, #[trigger] s[i]),
    ensures
        s.to_set() == Set::new(|p: Point| is_free(grid, p)),
        Set::new(|p: Point| is_free(grid, p)).len() == s.len(),
{
    let free = Set::new(|p: Point| is_free(grid, p));
    assert forall|p: Point| s.to_set().contains(p) <==> free.contains(p) by {
        if s.to_set().contains(p) {
            let i = choose|i: int| 0 <= i < s.len() && s[i] == p;
            assert(is_free(grid, s[i]));
        }
    }
    assert(s.to_set() =~= free);
    s.unique_seq_to_set();
}

/// A loop on the board that visits no cell twice and has as many cells as
/// the board visits every cell of the board, and so every free one.
pub proof fn lemma_long_loop_covers(grid: Seq<Seq<i8>>, s: Seq<Point>)
    requires
        s.no_duplicates(),
        forall|i: int| 0 <= i < s.len() ==> in_grid(grid, #[trigger] s[i]),
        s.len() == cells(grid),
    ensures
        forall|p: Point| in_grid(grid, p) ==> s.contains(p),
        covers_free(grid, s),
{
    let width = width_of(grid);
    let places = Seq::new(s.len(), |i: int| index_of_point(width, s[i]));
    let all = set_int_range(0, cells(grid));
    lemma_int_range(0, cells(grid));
    assert forall|i: int, j: int| 0 <= i < places.len() && 0 <= j < places.len() && i != j implies places[i]
        != places[j] by {
        lemma_point_round_trip(width, s[i]);
        lemma_point_round_trip(width, s[j]);
    }
    places.unique_seq_to_set();
    assert forall|k: int| places.to_set().contains(k) implies all.contains(k) by {
        let i = choose|i: int| 0 <= i < places.len() && places[i] == k;
        crate::common::lemma_index_in_range(grid, s[i]);
    }
    vstd::set_lib::lemma_subset_equality(places.to_set(), all);
    assert forall|p: Point| in_grid(grid, p) implies s.contains(p) by {
        crate::common::lemma_index_in_range(grid, p);
        let k = index_of_point(width, p);
        assert(all.contains(k));
        assert(places.to_set().contains(k));
        let i = choose|i: int| 0 <= i < places.len() && places[i] == k;
        lemma_point_round_trip(width, s[i]);
        lemma_point_round_trip(width, p);
        assert(s[i] == p);
    }
}

/// One scan leaves a loop on the board on the board, and makes it no
/// shorter.
pub(crate) proof fn lemma_scanned_keeps_cells(grid: Seq<Seq<i8>>, s: Seq<Point>, offset: int)
    requires
        0 <= offset,
        forall|i: int| 0 <= i < s.len() ==> in_grid(grid, #[trigger] s[i]),
    ensures
        forall|i: int| 0 <= i < scanned(grid, s, offset).len() ==> in_grid(grid, #[trigger] scanned(grid, s, offset)[i]),
        scanned(grid, s, offset).len() >= s.len(),
{
    lemma_first_wide_edge(grid, s, offset, 0);
    match first_wide_edge(grid, s, offset, 0) {
        Some(e) => {
            lemma_widened(grid, s, e);
            let w = widened(grid, s, e);
            assert forall|i: int| 0 <= i < w.len() implies in_grid(grid, #[trigger] w[i]) by {
                assert(w.contains(w[i]));
                if s.contains(w[i]) {
                    let j = choose|j: int| 0 <= j < s.len() && s[j] == w[i];
                    assert(in_grid(grid, s[j]));
                }
            }
        },
        None => {},
    }
}

/// However often a loop on the board is widened, it stays on the board and
/// gets no shorter.
pub(crate) proof fn lemma_grown_keeps_cells(grid: Seq<Seq<i8>>, s: Seq<Point>, offsets: Seq<int>)
    requires
        forall|i: int| 0 <= i < s.len() ==> in_grid(grid, #[trigger] s[i]),
        forall|i: int| 0 <= i < offsets.len() ==> 0 <= #[trigger] offsets[i],
    ensures
        forall|i: int|
            0 <= i < grown(grid, s, offsets).len() ==> in_grid(grid, #[trigger] grown(grid, s, offsets)[i]),
        grown(grid, s, offsets).len() >= s.len(),
    decreases offsets.len(),
{
    if offsets.len() > 0 {
        lemma_grown_keeps_cells(grid, s, offsets.drop_last());
        lemma_scanned_keeps_cells(grid, grown(grid, s, offsets.drop_last()), offsets.last());
    }
}

/// The smallest loop through two cells, however often it is widened, stays
/// on the board; where the two cells differ it is a closed loop that
/// visits no cell twice.
pub proof fn lemma_grown_seed(grid: Seq<Seq<i8>>, a: Point, b: Point, c: Seq<Point>)
    requires
        is_grown_seed(grid, a, b, c),
    ensures
        c.len() >= 1,
        forall|i: int| 0 <= i < c.len() ==> in_grid(grid, #[trigger] c[i]),
        a != b ==> is_loop(grid, c) && c.no_duplicates(),
{
    let seed = seed_cycle(grid, a, b)->0;
    let offsets = choose|offsets: Seq<int>|
        c == #[trigger] grown(grid, seed, offsets) && forall|i: int| 0 <= i < offsets.len() ==> 0 <= #[trigger] offsets[i];
    lemma_seed_cycle(grid, a, b);
    lemma_grown_keeps_cells(grid, seed, offsets);
    if a != b {
        lemma_grown_keeps_loop(grid, seed, offsets);
    }
}

/// There is a smallest loop through two cells of a board exactly if a walk
/// leads from the first to the second once both are taken as free, and a
/// walk leads back over the blocked cells.
pub proof fn lemma_seed_cycle_exists(grid: Seq<Seq<i8>>, a: Point, b: Point)
    requires
        grid_ok(grid),
        in_grid(grid, a),
        in_grid(grid, b),
    ensures
        seed_cycle(grid, a, b) is Some <==> crate::walk::reachable(masked(grid, a, b), a, b)
            && crate::walk::reachable(complement(grid), b, a),
{
    lemma_masked(grid, a, b);
    lemma_complement(grid);
    crate::optimal::lemma_search_result(masked(grid, a, b), a, b);
    crate::optimal::lemma_search_result(complement(grid), b, a);
    if search_result(masked(grid, a, b), a, b) is Some {
        assert(crate::walk::connects(masked(grid, a, b), a, b, search_result(masked(grid, a, b), a, b)->0));
    }
    if search_result(complement(grid), b, a) is Some {
        assert(crate::walk::connects(complement(grid), b, a, search_result(complement(grid), b, a)->0));
    }
}

} // verus!
