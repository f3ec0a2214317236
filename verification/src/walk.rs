//! Walks over the free cells of a board, shortest walks, and the distance
//! between two cells.

use vstd::prelude::*;
use crate::common::{Point, in_grid, is_free, adjacent, manhattan};

verus! {

/// A walk on the board: a non-empty sequence of cells of the board in which
/// each cell after the first is free and a neighbour of the one before it.
/// The first cell may be blocked: a search never asks whether its start is.
pub open spec fn is_walk(board: Seq<Seq<i8>>, s: Seq<Point>) -> bool {
    &&& s.len() >= 1
    &&& in_grid(board, s[0])
    &&& forall|i: int| #![trigger s[i]] 1 <= i < s.len() ==> is_free(board, s[i]) && adjacent(s[i - 1], s[i])
}

/// `s` is a walk from `a` to `b`.
pub open spec fn connects(board: Seq<Seq<i8>>, a: Point, b: Point, s: Seq<Point>) -> bool {
    is_walk(board, s) && s[0] == a && s[s.len() - 1] == b
}

/// Some walk leads from `a` to `b`.
pub open spec fn reachable(board: Seq<Seq<i8>>, a: Point, b: Point) -> bool {
    exists|s: Seq<Point>| connects(board, a, b, s)
}

/// `s` is a walk from `a` to `b`, and no walk from `a` to `b` has fewer cells.
pub open spec fn is_shortest(board: Seq<Seq<i8>>, a: Point, b: Point, s: Seq<Point>) -> bool {
    &&& connects(board, a, b, s)
    &&& forall|t: Seq<Point>| #[trigger] connects(board, a, b, t) ==> s.len() <= t.len()
}

/// A prefix of a walk is a walk.
pub proof fn lemma_walk_prefix(board: Seq<Seq<i8>>, s: Seq<Point>, n: int)
    requires
        is_walk(board, s),
        1 <= n <= s.len(),
    ensures
        is_walk(board, s.subrange(0, n)),
        s.subrange(0, n)[0] == s[0],
        s.subrange(0, n)[n - 1] == s[n - 1],
{
    let t = s.subrange(0, n);
    assert forall|i: int| #![trigger t[i]] 1 <= i < t.len() implies is_free(board, t[i]) && adjacent(
        t[i - 1],
        t[i],
    ) by {
        assert(t[i] == s[i]);
        assert(t[i - 1] == s[i - 1]);
    }
}

/// Along a walk the Manhattan distance to any fixed cell changes by at most
/// one per step.
pub proof fn lemma_walk_estimate(board: Seq<Seq<i8>>, s: Seq<Point>, target: Point, i: int, j: int)
    requires
        is_walk(board, s),
        0 <= i <= j < s.len(),
    ensures
        manhattan(s[i], target) <= (j - i) + manhattan(s[j], target),
    decreases j - i,
{
    if i < j {
        lemma_walk_estimate(board, s, target, i, j - 1);
        assert(adjacent(s[j - 1], s[j]));
    }
}

/// Cutting the stretch between two visits of one cell out of a walk leaves a
/// walk with the same ends.
pub proof fn lemma_walk_shortcut(board: Seq<Seq<i8>>, s: Seq<Point>, i: int, j: int)
    requires
        is_walk(board, s),
        0 <= i < j < s.len(),
        s[i] == s[j],
    ensures
        is_walk(board, s.subrange(0, i + 1) + s.subrange(j + 1, s.len() as int)),
        (s.subrange(0, i + 1) + s.subrange(j + 1, s.len() as int))[0] == s[0],
        (s.subrange(0, i + 1) + s.subrange(j + 1, s.len() as int)).last() == s.last(),
        (s.subrange(0, i + 1) + s.subrange(j + 1, s.len() as int)).len() < s.len(),
{
    let t = s.subrange(0, i + 1) + s.subrange(j + 1, s.len() as int);
    assert forall|m: int| #![trigger t[m]] 1 <= m < t.len() implies is_free(board, t[m]) && adjacent(
        t[m - 1],
        t[m],
    ) by {
        if m <= i {
            assert(t[m] == s[m]);
            assert(t[m - 1] == s[m - 1]);
        } else {
            assert(t[m] == s[m + (j - i)]);
            if m == i + 1 {
                assert(t[m - 1] == s[i]);
                assert(s[i] == s[j]);
                assert(adjacent(s[j], s[j + 1]));
            } else {
                assert(t[m - 1] == s[m - 1 + (j - i)]);
            }
        }
    }
}

/// A shortest walk visits no cell twice.
pub proof fn lemma_shortest_is_simple(board: Seq<Seq<i8>>, a: Point, b: Point, s: Seq<Point>)
    requires
        is_shortest(board, a, b, s),
    ensures
        s.no_duplicates(),
{
    assert forall|i: int, j: int| 0 <= i < s.len() && 0 <= j < s.len() && i != j implies s[i] != s[j] by {
        if s[i] == s[j] {
            let (lo, hi) = if i < j { (i, j) } else { (j, i) };
            lemma_walk_shortcut(board, s, lo, hi);
            let t = s.subrange(0, lo + 1) + s.subrange(hi + 1, s.len() as int);
            assert(connects(board, a, b, t));
        }
    }
}

/// The distance from `a` to `b`: the number of steps of a shortest walk.
/// It means nothing where no walk leads from `a` to `b`.
pub open spec fn distance(board: Seq<Seq<i8>>, a: Point, b: Point) -> int {
    (choose|s: Seq<Point>| is_shortest(board, a, b, s)).len() - 1
}

/// Every shortest walk has as many steps as the distance says.
pub proof fn lemma_distance(board: Seq<Seq<i8>>, a: Point, b: Point, s: Seq<Point>)
    requires
        is_shortest(board, a, b, s),
    ensures
        distance(board, a, b) == s.len() - 1,
{
    let t = choose|t: Seq<Point>| is_shortest(board, a, b, t);
    assert(connects(board, a, b, t));
    assert(connects(board, a, b, s));
}

/// The Manhattan distance never overestimates: no walk from `a` to `b` has
/// fewer steps.
pub proof fn lemma_manhattan_admissible(board: Seq<Seq<i8>>, a: Point, b: Point, s: Seq<Point>)
    requires
        connects(board, a, b, s),
    ensures
        manhattan(a, b) <= s.len() - 1,
{
    lemma_walk_estimate(board, s, b, 0, s.len() - 1);
}

/// On a board without blocked cells a walk leads from each cell to each
/// other in as many steps as the Manhattan distance says.
pub proof fn lemma_straight_walk(board: Seq<Seq<i8>>, a: Point, b: Point) -> (s: Seq<Point>)
    requires
        in_grid(board, a),
        in_grid(board, b),
        forall|p: Point| in_grid(board, p) ==> #[trigger] is_free(board, p),
    ensures
        connects(board, a, b, s),
        s.len() == manhattan(a, b) + 1,
    decreases manhattan(a, b),
{
    if a == b {
        seq![a]
    } else {
        let c = if b.x > a.x {
            Point { x: (b.x - 1) as usize, y: b.y }
        } else if b.x < a.x {
            Point { x: (b.x + 1) as usize, y: b.y }
        } else if b.y > a.y {
            Point { x: b.x, y: (b.y - 1) as usize }
        } else {
            Point { x: b.x, y: (b.y + 1) as usize }
        };
        assert(in_grid(board, c));
        let before = lemma_straight_walk(board, a, c);
        let s = before.push(b);
        assert forall|i: int| #![trigger s[i]] 1 <= i < s.len() implies is_free(board, s[i]) && adjacent(
            s[i - 1],
            s[i],
        ) by {
            if i < before.len() {
                assert(s[i] == before[i]);
                assert(s[i - 1] == before[i - 1]);
            } else {
                assert(s[i - 1] == c);
                assert(is_free(board, b));
            }
        }
        s
    }
}

/// Where no cell is blocked the Manhattan distance is the distance.
pub proof fn lemma_distance_on_free_board(board: Seq<Seq<i8>>, a: Point, b: Point)
    requires
        in_grid(board, a),
        in_grid(board, b),
        forall|p: Point| in_grid(board, p) ==> #[trigger] is_free(board, p),
    ensures
        reachable(board, a, b),
        distance(board, a, b) == manhattan(a, b),
{
    let s = lemma_straight_walk(board, a, b);
    assert forall|t: Seq<Point>| #[trigger] connects(board, a, b, t) implies s.len() <= t.len() by {
        lemma_manhattan_admissible(board, a, b, t);
    }
    lemma_distance(board, a, b, s);
}

} // verus!
