//! The search for a loop through two cells that covers the free cells of a
//! board.

use vstd::prelude::*;
use rand::rngs::StdRng;
use crate::chance::draw_below;
use crate::common::{
    Point, grid_of, grid_ok, in_grid, is_free, is_rectangular, width_of, height_of, cell, non_empty, cells,
    point_of_index, index_of_point, lemma_index_in_range, lemma_point_in_grid,
};
use crate::astar::{AStar, path_view, indices_of, to_indices};
use crate::walk::reachable;
use crate::cycle::{
    masked, flipped, complement, interior, seed_cycle, bulge, fits, chosen_bulge, widened, first_wide_edge,
    scanned, grown, is_full, covers_free, is_loop, uncovered, covers_free_indices, is_grown_seed,
};

verus! {

/// Whether `p` is among the cells of `cycle`.
fn on_cycle(cycle: &Vec<Point>, p: Point) -> (r: bool)
    ensures
        r == cycle@.contains(p),
{
    let mut i: usize = 0;
    while i < cycle.len()
        invariant
            i <= cycle.len(),
            forall|j: int| 0 <= j < i ==> cycle@[j] != p,
        decreases cycle.len() - i,
    {
        if cycle[i] == p {
            return true;
        }
        i += 1;
    }
    false
}

/// The two cells beside the edge `i` on the side `sign`, if both lie on the
/// board, are free and are not on the loop.
fn fitting_bulge(board: &[Vec<i8>], cycle: &Vec<Point>, i: usize, sign: isize) -> (r: Option<(Point, Point)>)
    requires
        grid_ok(grid_of(board@)),
        i < cycle.len(),
        sign == 1 || sign == -1,
    ensures
        r == if bulge(grid_of(board@), cycle@, i as int, sign as int) is Some && fits(
            grid_of(board@),
            cycle@,
            bulge(grid_of(board@), cycle@, i as int, sign as int)->0,
        ) {
            bulge(grid_of(board@), cycle@, i as int, sign as int)
        } else {
            None
        },
{
    let width = board.len();
    let height = board[0].len();
    let p = cycle[i];
    let q = cycle[if i + 1 == cycle.len() { 0 } else { i + 1 }];
    let dx: isize = if p.y == q.y { 0 } else { sign };
    let dy: isize = if p.y == q.y { sign } else { 0 };
    if let Some(a) = p.get_offset(width, height, dx, dy) {
        if let Some(b) = q.get_offset(width, height, dx, dy) {
            assert(grid_of(board@)[a.x as int].len() == height);
            assert(grid_of(board@)[b.x as int].len() == height);
            if board[a.x][a.y] != 1 && board[b.x][b.y] != 1 && !on_cycle(cycle, a) && !on_cycle(cycle, b) {
                return Some((a, b));
            }
        }
    }
    None
}

/// A copy of the board on which the cells `a` and `b` are free.
fn masked_board(board: &[Vec<i8>], a: Point, b: Point) -> (r: Vec<Vec<i8>>)
    requires
        grid_ok(grid_of(board@)),
        in_grid(grid_of(board@), a),
        in_grid(grid_of(board@), b),
    ensures
        grid_of(r@) == masked(grid_of(board@), a, b),
{
    let ghost grid = grid_of(board@);
    let mut out: Vec<Vec<i8>> = Vec::new();
    let mut x: usize = 0;
    proof {
        crate::cycle::lemma_masked(grid, a, b);
    }
    while x < board.len()
        invariant
            x <= board.len(),
            grid == grid_of(board@),
            grid_ok(grid),
            in_grid(grid, a),
            in_grid(grid, b),
            out.len() == x,
            forall|i: int| 0 <= i < x ==> (#[trigger] out@[i])@ == masked(grid, a, b)[i],
        decreases board.len() - x,
    {
        let mut row: Vec<i8> = Vec::new();
        let mut y: usize = 0;
        proof {
            crate::cycle::lemma_masked(grid, a, b);
            assert(grid[x as int].len() == grid[0].len());
            assert(masked(grid, a, b)[x as int].len() == grid[x as int].len());
        }
        while y < board[x].len()
            invariant
                x < board.len(),
                y <= board@[x as int].len(),
                grid == grid_of(board@),
                grid_ok(grid),
                in_grid(grid, a),
                in_grid(grid, b),
                grid[x as int].len() == grid[0].len(),
                row.len() == y,
                forall|j: int| 0 <= j < y ==> #[trigger] row@[j] == masked(grid, a, b)[x as int][j],
            decreases board@[x as int].len() - y,
        {
            let here = Point { x, y };
            let v: i8 = if here == a || here == b { 0 } else { board[x][y] };
            proof {
                crate::cycle::lemma_masked(grid, a, b);
                assert(in_grid(grid, here));
                assert(cell(masked(grid, a, b), here) == v);
            }
            row.push(v);
            y += 1;
        }
        assert(row@ =~= masked(grid, a, b)[x as int]);
        out.push(row);
        x += 1;
    }
    assert(grid_of(out@) =~= masked(grid, a, b));
    out
}

/// The complement of the board.
fn complement_board(board: &[Vec<i8>]) -> (r: Vec<Vec<i8>>)
    ensures
        grid_of(r@) == complement(grid_of(board@)),
{
    let ghost grid = grid_of(board@);
    let mut out: Vec<Vec<i8>> = Vec::new();
    let mut x: usize = 0;
    while x < board.len()
        invariant
            x <= board.len(),
            grid == grid_of(board@),
            out.len() == x,
            forall|i: int| 0 <= i < x ==> (#[trigger] out@[i])@ == complement(grid)[i],
        decreases board.len() - x,
    {
        let mut row: Vec<i8> = Vec::new();
        let mut y: usize = 0;
        while y < board[x].len()
            invariant
                x < board.len(),
                y <= board@[x as int].len(),
                grid == grid_of(board@),
                row.len() == y,
                forall|j: int| 0 <= j < y ==> #[trigger] row@[j] == flipped(grid[x as int][j]),
            decreases board@[x as int].len() - y,
        {
            let v: i8 = if board[x][y] == 1 { 0 } else { 1 };
            row.push(v);
            y += 1;
        }
        assert(row@ =~= complement(grid)[x as int]);
        out.push(row);
        x += 1;
    }
    assert(grid_of(out@) =~= complement(grid));
    out
}

/// Whether `k` is among the indices of `cycle`.
fn among(cycle: &Vec<usize>, k: usize) -> (r: bool)
    ensures
        r == cycle@.contains(k),
{
    let mut i: usize = 0;
    while i < cycle.len()
        invariant
            i <= cycle.len(),
            forall|j: int| 0 <= j < i ==> cycle@[j] != k,
        decreases cycle.len() - i,
    {
        if cycle[i] == k {
            return true;
        }
        i += 1;
    }
    false
}

/// Whether the indices of `cycle` name every free cell of the board.
fn names_all_free(board: &[Vec<i8>], cycle: &Vec<usize>) -> (r: bool)
    requires
        grid_ok(grid_of(board@)),
        cells(grid_of(board@)) <= usize::MAX,
    ensures
        r == covers_free_indices(grid_of(board@), cycle@),
{
    let ghost grid = grid_of(board@);
    let width = board.len();
    let height = board[0].len();
    assert(width * height == cells(grid));
    let total: usize = width * height;
    let mut k: usize = 0;
    while k < total
        invariant
            k <= total,
            total == cells(grid),
            grid == grid_of(board@),
            grid_ok(grid),
            width == width_of(grid),
            forall|j: int|
                0 <= j < k && is_free(grid, #[trigger] point_of_index(width_of(grid), j)) ==> cycle@.contains(
                    j as usize,
                ),
        decreases total - k,
    {
        let p = Point::get_point_from_index(width, k);
        proof {
            lemma_point_in_grid(grid, k as int);
            assert(grid[p.x as int].len() == grid[0].len());
        }
        if board[p.x][p.y] != 1 && !among(cycle, k) {
            return false;
        }
        k += 1;
    }
    true
}

/// How many attempts `get_longest_cycle` makes before it gives up.
pub const ATTEMPTS: usize = 10;

/// A search for a loop through two cells that visits every free cell of the
/// board.
pub struct LongestCycle<'a> {
    board: &'a [Vec<i8>],
    start: Point,
    target: Point,
    board_height: usize,
    board_width: usize,
}

impl<'a> LongestCycle<'a> {
    /// Widens the loop at the edge between `cycle[start_index]` and the cell
    /// that follows it, by the two cells beside the edge on the side `+1`
    /// or, if those do not fit, on the side `-1`. Returns whether it did;
    /// the loop stays as it is where neither pair fits, where `start_index`
    /// names no edge, and where the board is empty or not rectangular.
    pub fn extend_cycle(board: &[Vec<i8>], cycle: &mut Vec<Point>, start_index: usize) -> (r: bool)
        ensures
            r == chosen_bulge(grid_of(board@), old(cycle)@, start_index as int) is Some,
            final(cycle)@ == widened(grid_of(board@), old(cycle)@, start_index as int),
    {
        if board.len() == 0 || board[0].len() == 0 || !is_rectangular(board) {
            return false;
        }
        if start_index >= cycle.len() {
            return false;
        }
        let place: usize = if start_index + 1 == cycle.len() { 0 } else { start_index + 1 };
        if let Some((a, b)) = fitting_bulge(board, cycle, start_index, 1) {
            cycle.insert(place, b);
            cycle.insert(place, a);
            return true;
        }
        if let Some((a, b)) = fitting_bulge(board, cycle, start_index, -1) {
            cycle.insert(place, b);
            cycle.insert(place, a);
            return true;
        }
        false
    }

    /// The smallest loop through `start` and `target`: the shortest path
    /// from the one to the other with both taken as free, closed by the
    /// shortest path back over the blocked cells. `None` where the board is
    /// empty or not rectangular, where one of the cells lies off it, and
    /// where one of the two paths does not exist.
    pub fn get_smallest_cycle(board: &[Vec<i8>], start: Point, target: Point) -> (r: Option<Vec<Point>>)
        ensures
            path_view(r) == seed_cycle(grid_of(board@), start, target),
            r is Some <==> {
                &&& grid_ok(grid_of(board@))
                &&& in_grid(grid_of(board@), start)
                &&& in_grid(grid_of(board@), target)
                &&& reachable(masked(grid_of(board@), start, target), start, target)
                &&& reachable(complement(grid_of(board@)), target, start)
            },
            r matches Some(c) ==> {
                &&& c@.no_duplicates()
                &&& forall|i: int| 0 <= i < c@.len() ==> in_grid(grid_of(board@), #[trigger] c@[i])
                &&& c@.len() >= 1
                &&& c@[0] == start
                &&& start != target ==> is_loop(grid_of(board@), c@)
            },
    {
        if !Point::point_within_board(board, start) || !Point::point_within_board(board, target) {
            return None;
        }
        if !is_rectangular(board) {
            return None;
        }
        let ghost grid = grid_of(board@);
        proof {
            crate::cycle::lemma_seed_cycle_exists(grid, start, target);
        }
        let board_wo_start_target = masked_board(board, start, target);
        let board_inverted = complement_board(board);
        let mut path: Vec<Point>;
        if let Some(this_path) = AStar::astar(board_wo_start_target.as_slice(), start, target) {
            path = this_path;
        } else {
            return None;
        }
        let ghost out = path@;
        if let Some(this_path) = AStar::astar(board_inverted.as_slice(), target, start) {
            path = LongestCycle::close_loop(path, &this_path);
            proof {
                assert(seed_cycle(grid, start, target) == Some(out + interior(this_path@)));
                crate::cycle::lemma_seed_cycle(grid, start, target);
            }
        } else {
            return None;
        }
        Some(path)
    }

    /// The way out with the inner cells of the way back behind it.
    fn close_loop(out: Vec<Point>, back: &Vec<Point>) -> (r: Vec<Point>)
        ensures
            r@ == out@ + interior(back@),
    {
        let mut path = out;
        let mut i: usize = 1;
        while i < back.len() && i + 1 < back.len()
            invariant
                1 <= i,
                back.len() >= 2 ==> i <= back.len() - 1,
                back.len() >= 2 ==> path@ == out@ + back@.subrange(1, i as int),
                back.len() < 2 ==> path@ == out@,
            decreases back.len() - i,
        {
            path.push(back[i]);
            i += 1;
            proof {
                assert(path@ =~= out@ + back@.subrange(1, i as int));
            }
        }
        proof {
            assert(path@ =~= out@ + interior(back@));
        }
        path
    }

    /// Looks at the edges of the loop one after the other, beginning with
    /// the edge `offset` (counted round the loop), and widens the loop at
    /// the first edge that allows it. Returns whether it found one.
    pub fn extend_from(board: &[Vec<i8>], cycle: &mut Vec<Point>, offset: usize) -> (r: bool)
        ensures
            r == first_wide_edge(grid_of(board@), old(cycle)@, offset as int, 0) is Some,
            final(cycle)@ == scanned(grid_of(board@), old(cycle)@, offset as int),
    {
        let ghost grid = grid_of(board@);
        let current_len = cycle.len();
        if current_len == 0 {
            return false;
        }
        let base: usize = offset % current_len;
        let mut i: usize = 0;
        while i < current_len
            invariant
                i <= current_len,
                current_len == cycle.len(),
                current_len > 0,
                base == offset % current_len,
                grid == grid_of(board@),
                cycle@ == old(cycle)@,
                first_wide_edge(grid, cycle@, offset as int, 0) == first_wide_edge(grid, cycle@, offset as int, i as int),
            decreases current_len - i,
        {
            proof {
                crate::cycle::lemma_scan_edge(offset as int, i as int, current_len as int);
            }
            let edge: usize = if i < current_len - base { base + i } else { i - (current_len - base) };
            if LongestCycle::extend_cycle(board, cycle, edge) {
                return true;
            }
            i += 1;
        }
        false
    }

    /// Grows the smallest loop through `start` and `target` until it cannot
    /// be widened at any edge. Each scan for an edge begins at an edge drawn
    /// from `rng`, so the loop that comes out depends on the draws: it is
    /// the smallest loop after one scan per draw. `None` exactly where there
    /// is no smallest loop.
    pub fn create_longest_cycle(
        board: &[Vec<i8>],
        start: Point,
        target: Point,
        rng: &mut StdRng,
    ) -> (r: Option<
        Vec<Point>,
    >)
        ensures
            r is None <==> seed_cycle(grid_of(board@), start, target) is None,
            r matches Some(c) ==> is_grown_seed(grid_of(board@), start, target, c@),
    {
        let ghost grid = grid_of(board@);
        if let Some(mut cycle) = LongestCycle::get_smallest_cycle(board, start, target) {
            let ghost seed = cycle@;
            let ghost mut offsets: Seq<int> = Seq::empty();
            proof {
                crate::cycle::lemma_uncovered_finite(grid, cycle@);
            }
            loop
                invariant
                    grid == grid_of(board@),
                    cycle@ == grown(grid, seed, offsets),
                    forall|i: int| 0 <= i < offsets.len() ==> 0 <= #[trigger] offsets[i],
                    cycle.len() >= 1,
                    uncovered(grid, cycle@).finite(),
                ensures
                    is_full(grid, cycle@),
                decreases uncovered(grid, cycle@).len(),
            {
                let start_index: usize = draw_below(rng, cycle.len());
                let ghost before = cycle@;
                let extended = LongestCycle::extend_from(board, &mut cycle, start_index);
                proof {
                    let longer = offsets.push(start_index as int);
                    assert(longer.drop_last() =~= offsets);
                    offsets = longer;
                    crate::cycle::lemma_first_wide_edge(grid, before, start_index as int, 0);
                    if extended {
                        let e = first_wide_edge(grid, before, start_index as int, 0)->0;
                        crate::cycle::lemma_widened(grid, before, e);
                        crate::cycle::lemma_widened_covers_more(grid, before, e);
                    } else {
                        crate::cycle::lemma_scan_none_is_full(grid, before, start_index as int);
                    }
                }
                if !extended {
                    break ;
                }
            }
            proof {
                assert(seed_cycle(grid, start, target) == Some(seed));
                assert(cycle@ == grown(grid, seed_cycle(grid, start, target)->0, offsets));
            }
            Some(cycle)
        } else {
            None
        }
    }

    #[verifier::type_invariant]
    spec fn inv(self) -> bool {
        let grid = grid_of(self.board@);
        &&& non_empty(grid)
        &&& cells(grid) <= usize::MAX
        &&& self.board_width == width_of(grid)
        &&& self.board_height == height_of(grid)
        &&& in_grid(grid, self.start)
        &&& in_grid(grid, self.target)
    }

    /// The board on which the loop is sought.
    pub closed spec fn grid(&self) -> Seq<Seq<i8>> {
        grid_of(self.board@)
    }

    /// The first of the two cells through which the loop leads.
    pub closed spec fn start_point(&self) -> Point {
        self.start
    }

    /// The second of the two cells through which the loop leads.
    pub closed spec fn target_point(&self) -> Point {
        self.target
    }

    /// A search for a loop through the cells with the indices `start` and
    /// `target`; `None` where the board has no cell, or more cells than a
    /// machine word counts, or where one of the indices names no cell.
    pub fn new(board: &'a [Vec<i8>], start: usize, target: usize) -> (r: Option<LongestCycle<'a>>)
        ensures
            r is Some <==> non_empty(grid_of(board@)) && cells(grid_of(board@)) <= usize::MAX && start < cells(
                grid_of(board@),
            ) && target < cells(grid_of(board@)),
            r matches Some(l) ==> l.grid() == grid_of(board@) && l.start_point() == point_of_index(
                width_of(grid_of(board@)),
                start as int,
            ) && l.target_point() == point_of_index(width_of(grid_of(board@)), target as int),
    {
        if !Point::index_within_board(board, start) || !Point::index_within_board(board, target) {
            return None;
        }
        let board_width = board.len();
        let board_height = board[0].len();
        let w: u128 = board_width as u128;
        let h: u128 = board_height as u128;
        assert(w * h <= u128::MAX) by (nonlinear_arith)
            requires
                0 <= w <= 0xffff_ffff_ffff_ffff,
                0 <= h <= 0xffff_ffff_ffff_ffff,
        ;
        if w * h > usize::MAX as u128 {
            return None;
        }
        proof {
            lemma_point_in_grid(grid_of(board@), start as int);
            lemma_point_in_grid(grid_of(board@), target as int);
        }
        Some(
            LongestCycle {
                board,
                start: Point::get_point_from_index(board_width, start),
                target: Point::get_point_from_index(board_width, target),
                board_height,
                board_width,
            },
        )
    }

    /// One attempt: the smallest loop through the two cells, grown until it
    /// cannot be widened, as row-major indices.
    pub fn try_get_longest_cycle(&self, rng: &mut StdRng) -> (r: Option<Vec<usize>>)
        ensures
            r is None <==> seed_cycle(self.grid(), self.start_point(), self.target_point()) is None,
            r matches Some(v) ==> exists|c: Seq<Point>|
                v@ == #[trigger] indices_of(width_of(self.grid()), c) && is_grown_seed(
                    self.grid(),
                    self.start_point(),
                    self.target_point(),
                    c,
                ),
    {
        proof {
            use_type_invariant(self);
        }
        if let Some(cycle) = LongestCycle::create_longest_cycle(self.board, self.start, self.target, rng) {
            proof {
                let grid = grid_of(self.board@);
                crate::cycle::lemma_grown_seed(grid, self.start, self.target, cycle@);
                assert forall|i: int| 0 <= i < cycle.len() implies index_of_point(
                    self.board_width as int,
                    #[trigger] cycle@[i],
                ) <= usize::MAX by {
                    lemma_index_in_range(grid, cycle@[i]);
                }
            }
            let out = to_indices(self.board_width, &cycle);
            Some(out)
        } else {
            None
        }
    }

    /// Up to `ATTEMPTS` attempts to grow the smallest loop through the two
    /// cells into one that visits every free cell of the board; the first
    /// that does is returned as row-major indices. `None` where there is no
    /// smallest loop, and where no attempt covered the board.
    pub fn get_longest_cycle(&self, rng: &mut StdRng) -> (r: Option<Vec<usize>>)
        ensures
            seed_cycle(self.grid(), self.start_point(), self.target_point()) is None ==> r is None,
            r matches Some(v) ==> exists|c: Seq<Point>|
                v@ == #[trigger] indices_of(width_of(self.grid()), c) && is_grown_seed(
                    self.grid(),
                    self.start_point(),
                    self.target_point(),
                    c,
                ) && covers_free(self.grid(), c) && (self.start_point() != self.target_point() ==> is_loop(
                    self.grid(),
                    c,
                ) && c.no_duplicates()),
            r is None && seed_cycle(self.grid(), self.start_point(), self.target_point()) is Some ==> exists|
                c: Seq<Point>,
            |
                #[trigger] is_grown_seed(self.grid(), self.start_point(), self.target_point(), c) && !covers_free(
                    self.grid(),
                    c,
                ),
    {
        let mut attempt: usize = 0;
        while attempt < ATTEMPTS
            invariant
                attempt <= ATTEMPTS,
                attempt > 0 && seed_cycle(self.grid(), self.start_point(), self.target_point()) is Some ==> exists|
                    c: Seq<Point>,
                |
                    #[trigger] is_grown_seed(self.grid(), self.start_point(), self.target_point(), c)
                        && !covers_free(self.grid(), c),
            decreases ATTEMPTS - attempt,
        {
            if let Some(cycle) = self.try_get_longest_cycle(rng) {
                proof {
                    use_type_invariant(self);
                }
                let ghost grid = grid_of(self.board@);
                let ghost c = choose|c: Seq<Point>|
                    cycle@ == #[trigger] indices_of(width_of(self.grid()), c) && is_grown_seed(
                        self.grid(),
                        self.start_point(),
                        self.target_point(),
                        c,
                    );
                proof {
                    crate::cycle::lemma_grown_seed(grid, self.start, self.target, c);
                    crate::cycle::lemma_covers_by_indices(grid, c, cycle@);
                }
                if names_all_free(self.board, &cycle) {
                    return Some(cycle);
                }
            }
            attempt += 1;
        }
        None
    }
}

} // verus!
