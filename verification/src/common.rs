//! The cells of a board: their places, their row-major indices, and what it
//! means for a cell to lie on a board and to be free.

use vstd::prelude::*;

verus! {

/// A cell of the grid. A board stores the cell `(x, y)` at `board[x][y]`, so
/// `x` runs over the outer vector and `y` over each inner one.
#[derive(Copy, Clone, Debug, PartialEq, Eq, Structural)]
pub struct Point {
    pub x: usize,
    pub y: usize,
}

/// The coordinate reached from `cur_val` by `offset`, when it stays below
/// `max_dimension` and does not fall under zero.
pub open spec fn offset_dimension(max_dimension: int, cur_val: int, offset: int) -> Option<usize> {
    if 0 <= cur_val + offset < max_dimension && cur_val + offset <= usize::MAX {
        Some((cur_val + offset) as usize)
    } else {
        None
    }
}

/// The cell reached from `p` by `(dx, dy)` on a `width` by `height` grid.
pub open spec fn offset_point(p: Point, width: int, height: int, dx: int, dy: int) -> Option<Point> {
    match (offset_dimension(width, p.x as int, dx), offset_dimension(height, p.y as int, dy)) {
        (Some(nx), Some(ny)) => Some(Point { x: nx, y: ny }),
        _ => None,
    }
}

/// The distance between two coordinates.
pub open spec fn gap(a: int, b: int) -> int {
    if a >= b { a - b } else { b - a }
}

/// The Manhattan distance between two cells.
pub open spec fn manhattan(a: Point, b: Point) -> int {
    gap(a.x as int, b.x as int) + gap(a.y as int, b.y as int)
}

/// Two cells are neighbours when they differ by one step along one axis.
pub open spec fn adjacent(a: Point, b: Point) -> bool {
    manhattan(a, b) == 1
}

/// The cell with row-major index `index` on a grid `width` cells wide.
pub open spec fn point_of_index(width: int, index: int) -> Point {
    Point { x: (index % width) as usize, y: (index / width) as usize }
}

/// The row-major index of `p` on a grid `width` cells wide.
pub open spec fn index_of_point(width: int, p: Point) -> int {
    p.y * width + p.x
}

/// A board as the searches see it: the markers of its cells, `grid[x][y]`
/// for the cell `(x, y)`.
pub open spec fn grid_of(board: Seq<Vec<i8>>) -> Seq<Seq<i8>> {
    Seq::new(board.len(), |x: int| board[x]@)
}

/// The extent of a board in `x`: the number of inner vectors.
pub open spec fn width_of(board: Seq<Seq<i8>>) -> int {
    board.len() as int
}

/// The extent of a board in `y`: the length of the first inner vector.
pub open spec fn height_of(board: Seq<Seq<i8>>) -> int {
    if board.len() > 0 { board[0].len() as int } else { 0 }
}

/// The number of cells of a board.
pub open spec fn cells(board: Seq<Seq<i8>>) -> int {
    width_of(board) * height_of(board)
}

/// A board has at least one cell.
pub open spec fn non_empty(board: Seq<Seq<i8>>) -> bool {
    board.len() > 0 && board[0].len() > 0
}

/// Every inner vector of the board is as long as the first.
pub open spec fn rectangular(board: Seq<Seq<i8>>) -> bool {
    forall|i: int| 0 <= i < board.len() ==> (#[trigger] board[i]).len() == board[0].len()
}

/// A board that the searches accept: non-empty and rectangular.
pub open spec fn grid_ok(board: Seq<Seq<i8>>) -> bool {
    non_empty(board) && rectangular(board)
}

/// `p` lies on the board.
pub open spec fn in_grid(board: Seq<Seq<i8>>, p: Point) -> bool {
    non_empty(board) && p.x < width_of(board) && p.y < height_of(board)
}

/// The marker stored for the cell `p`.
pub open spec fn cell(board: Seq<Seq<i8>>, p: Point) -> i8 {
    board[p.x as int][p.y as int]
}

/// `p` lies on the board and is not blocked. Only the marker `1` blocks.
pub open spec fn is_free(board: Seq<Seq<i8>>, p: Point) -> bool {
    in_grid(board, p) && cell(board, p) != 1
}

impl Point {
    /// Moves by `(x, y)`; `None` when the move leaves the grid.
    pub fn get_offset(self, width: usize, height: usize, x: isize, y: isize) -> (r: Option<Point>)
        ensures
            r == offset_point(self, width as int, height as int, x as int, y as int),
    {
        if let Some(new_x) = Point::get_offset_dimension(width, self.x, x) {
            if let Some(new_y) = Point::get_offset_dimension(height, self.y, y) {
                Some(Point { x: new_x, y: new_y })
            } else {
                None
            }
        } else {
            None
        }
    }

    /// Moves one coordinate by `offset`; `None` when the result is negative
    /// or not below `max_dimension`. Nothing wraps and nothing saturates.
    pub fn get_offset_dimension(max_dimension: usize, cur_val: usize, offset: isize) -> (r: Option<usize>)
        ensures
            r == offset_dimension(max_dimension as int, cur_val as int, offset as int),
    {
        let moved: i128 = cur_val as i128 + offset as i128;
        if moved < 0 || moved >= max_dimension as i128 {
            None
        } else {
            Some(moved as usize)
        }
    }

    /// The Manhattan distance to `other`.
    pub fn get_abs_distance(&self, other: &Point) -> (r: i32)
        requires
            manhattan(*self, *other) <= i32::MAX,
        ensures
            r == manhattan(*self, *other),
    {
        let dx: usize = if self.x >= other.x { self.x - other.x } else { other.x - self.x };
        let dy: usize = if self.y >= other.y { self.y - other.y } else { other.y - self.y };
        (dx + dy) as i32
    }

    /// The cell with row-major index `index`.
    pub fn get_point_from_index(width: usize, index: usize) -> (r: Point)
        requires
            width > 0,
        ensures
            r == point_of_index(width as int, index as int),
            r.x < width,
            index_of_point(width as int, r) == index,
    {
        proof {
            lemma_index_round_trip(width as int, index as int);
        }
        Point { x: index % width, y: index / width }
    }

    /// The row-major index of `point`.
    pub fn get_index_from_point(width: usize, point: &Point) -> (r: usize)
        requires
            index_of_point(width as int, *point) <= usize::MAX,
        ensures
            r == index_of_point(width as int, *point),
    {
        assert(point.y * width >= 0) by (nonlinear_arith)
            requires
                point.y >= 0,
                width >= 0,
        ;
        point.y * width + point.x
    }

    /// Whether `index` names a cell of the board.
    pub fn index_within_board(board: &[Vec<i8>], index: usize) -> (r: bool)
        ensures
            r == (non_empty(grid_of(board@)) && index < width_of(grid_of(board@)) * height_of(grid_of(board@))),
    {
        if board.len() == 0 || board[0].len() == 0 {
            return false;
        }
        let w: u128 = board.len() as u128;
        let h: u128 = board[0].len() as u128;
        assert(w * h <= u128::MAX) by (nonlinear_arith)
            requires
                0 <= w <= 0xffff_ffff_ffff_ffff,
                0 <= h <= 0xffff_ffff_ffff_ffff,
        ;
        (index as u128) < w * h
    }

    /// Whether `point` lies on the board.
    pub fn point_within_board(board: &[Vec<i8>], point: Point) -> (r: bool)
        ensures
            r == in_grid(grid_of(board@), point),
    {
        if board.len() == 0 || board[0].len() == 0 {
            return false;
        }
        if point.x >= board.len() || point.y >= board[0].len() {
            return false;
        }
        true
    }
}

/// Whether every inner vector of the board is as long as the first.
pub fn is_rectangular(board: &[Vec<i8>]) -> (r: bool)
    ensures
        r == rectangular(grid_of(board@)),
{
    let mut i: usize = 0;
    while i < board.len()
        invariant
            i <= board.len(),
            forall|j: int| 0 <= j < i ==> (#[trigger] grid_of(board@)[j]).len() == board@[0].len(),
        decreases board.len() - i,
    {
        if board[i].len() != board[0].len() {
            assert(grid_of(board@)[i as int].len() != grid_of(board@)[0].len());
            return false;
        }
        i += 1;
    }
    true
}

/// Index and cell are exact inverses: the index of the cell of `index` is
/// `index` again, and that cell lies in the first `width` columns.
pub proof fn lemma_index_round_trip(width: int, index: int)
    requires
        width > 0,
        0 <= index,
    ensures
        0 <= index % width < width,
        0 <= index / width <= index,
        (index / width) * width + index % width == index,
{
    vstd::arithmetic::div_mod::lemma_fundamental_div_mod(index, width);
    vstd::arithmetic::div_mod::lemma_mod_bound(index, width);
    vstd::arithmetic::div_mod::lemma_div_pos_is_pos(index, width);
    assert((index / width) * width == width * (index / width)) by (nonlinear_arith);
    assert(index / width <= index) by {
        vstd::arithmetic::div_mod::lemma_div_is_ordered_by_denominator(index, 1, width);
    }
}

/// Index and cell are exact inverses: the cell of the index of `p` is `p`
/// again, for every cell in the first `width` columns.
pub proof fn lemma_point_round_trip(width: int, p: Point)
    requires
        width > 0,
        p.x < width,
    ensures
        index_of_point(width, p) >= 0,
        point_of_index(width, index_of_point(width, p)) == p,
{
    let i = index_of_point(width, p);
    assert(p.y * width >= 0) by (nonlinear_arith)
        requires
            p.y >= 0,
            width > 0,
    ;
    vstd::arithmetic::div_mod::lemma_fundamental_div_mod_converse(i, width, p.y as int, p.x as int);
}

/// The row-major index of a cell of the board fits the machine's word where
/// the number of cells does.
pub proof fn lemma_index_in_range(grid: Seq<Seq<i8>>, p: Point)
    requires
        in_grid(grid, p),
    ensures
        0 <= index_of_point(width_of(grid), p) < cells(grid),
{
    let w = width_of(grid);
    let h = height_of(grid);
    let x = p.x as int;
    let y = p.y as int;
    assert(y * w + x < w * h) by (nonlinear_arith)
        requires
            0 <= x < w,
            0 <= y < h,
    ;
    assert(y * w >= 0) by (nonlinear_arith)
        requires
            0 <= y,
            0 <= w,
    ;
}

/// The cell of a row-major index below the number of cells lies on the
/// board.
pub proof fn lemma_point_in_grid(grid: Seq<Seq<i8>>, index: int)
    requires
        non_empty(grid),
        0 <= index < cells(grid),
    ensures
        in_grid(grid, point_of_index(width_of(grid), index)),
{
    let w = width_of(grid);
    let h = height_of(grid);
    lemma_index_round_trip(w, index);
    let q = index / w;
    let r = index % w;
    assert(q < h) by (nonlinear_arith)
        requires
            q * w + r == index,
            index < w * h,
            0 <= r,
            w > 0,
    ;
}

} // verus!
