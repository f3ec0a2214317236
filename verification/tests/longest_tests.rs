use rand::rngs::StdRng;
use rand::SeedableRng;
use snake::common::Point;
use snake::longest::LongestCycle;

fn q(x: usize, y: usize) -> Point {
    Point { x, y }
}

fn walled_board(side: usize) -> Vec<Vec<i8>> {
    let mut board = vec![vec![0_i8; side]; side];
    board[3][1] = 1;
    board[2][1] = 1;
    board[1][1] = 1;
    board
}

fn is_closed_simple_loop(cycle: &[Point]) -> bool {
    for i in 0..cycle.len() {
        let next = cycle[(i + 1) % cycle.len()];
        if cycle[i].get_abs_distance(&next) != 1 {
            return false;
        }
        for j in 0..i {
            if cycle[i] == cycle[j] {
                return false;
            }
        }
    }
    true
}

#[test]
fn test_longest_cycle_new() {
    let board = vec![vec![0_i8; 4]; 4];
    let longest = LongestCycle::new(&board, 0, 15);
    assert!(longest.is_some());
    let longest = LongestCycle::new(&board, 0, 16);
    assert!(longest.is_none());
}

#[test]
fn test_longest_cycle_get_smallest_cycle() {
    let mut board = vec![vec![0_i8; 10]; 10];
    board[3][1] = 1;
    board[2][1] = 1;
    board[1][1] = 1;
    let start = Point { x: 3, y: 1 };
    let target = Point { x: 1, y: 1 };
    let path = LongestCycle::get_smallest_cycle(&board, start, target);
    assert!(path.is_some());
    assert_eq!(path.unwrap().len(), 6);
    let mut board = vec![vec![0_i8; 10]; 10];
    let start = Point { x: 1, y: 1 };
    let target = Point { x: 3, y: 5 };
    board[1][1] = 1;
    board[1][2] = 1;
    board[1][3] = 1;
    board[1][4] = 1;
    board[1][5] = 1;
    board[2][5] = 1;
    board[3][5] = 1;
    let path = LongestCycle::get_smallest_cycle(&board, start, target);
    println!("{:?}", path);
    assert!(path.is_some());
    assert_eq!(path.unwrap().len(), 12);
}

#[test]
fn test_longest_cycle_extend_cycle() {
    let mut board = vec![vec![0_i8; 10]; 10];
    board[3][1] = 1;
    board[2][1] = 1;
    board[1][1] = 1;
    let start = Point { x: 3, y: 1 };
    let target = Point { x: 1, y: 1 };
    let cycle_maybe = LongestCycle::get_smallest_cycle(&board, start, target);
    assert!(cycle_maybe.is_some());
    let mut cycle = cycle_maybe.unwrap();
    assert_eq!(cycle.len(), 6);
    LongestCycle::extend_cycle(&board, &mut cycle, 2);
    assert_eq!(cycle.len(), 8);
    LongestCycle::extend_cycle(&board, &mut cycle, 6);
    assert_eq!(cycle.len(), 10);
}

#[test]
fn test_longest_cycle_get_longest_cycle() {
    let mut board = vec![vec![0_i8; 6]; 6];
    board[3][1] = 1;
    board[2][1] = 1;
    board[1][1] = 1;
    let longest_maybe = LongestCycle::new(&board, 9, 7);
    assert!(longest_maybe.is_some());
    let longest = longest_maybe.unwrap();
    let mut rng = StdRng::seed_from_u64(1);
    let cycle_maybe = longest.get_longest_cycle(&mut rng);
    assert!(cycle_maybe.is_some());
    let cycle = cycle_maybe.unwrap();
    assert_eq!(cycle.len(), 36);
}

#[test]
fn longest_cycle_new_rejects_an_index_off_the_board() {
    let board = vec![vec![0_i8; 4]; 4];
    assert!(LongestCycle::new(&board, 16, 0).is_none());
    let empty: Vec<Vec<i8>> = Vec::new();
    assert!(LongestCycle::new(&empty, 0, 0).is_none());
}

#[test]
fn smallest_cycle_is_the_way_out_and_the_way_back() {
    let board = walled_board(10);
    let cycle = LongestCycle::get_smallest_cycle(&board, q(3, 1), q(1, 1)).unwrap();
    assert_eq!(cycle, vec![q(3, 1), q(3, 2), q(2, 2), q(1, 2), q(1, 1), q(2, 1)]);
    assert!(is_closed_simple_loop(&cycle));
    let mut board = vec![vec![0_i8; 10]; 10];
    for &(x, y) in [(1, 1), (1, 2), (1, 3), (1, 4), (1, 5), (2, 5), (3, 5)].iter() {
        board[x][y] = 1;
    }
    let cycle = LongestCycle::get_smallest_cycle(&board, q(1, 1), q(3, 5)).unwrap();
    let expected = vec![
        q(1, 1),
        q(2, 1),
        q(3, 1),
        q(3, 2),
        q(3, 3),
        q(3, 4),
        q(3, 5),
        q(2, 5),
        q(1, 5),
        q(1, 4),
        q(1, 3),
        q(1, 2),
    ];
    assert_eq!(cycle, expected);
    assert!(is_closed_simple_loop(&cycle));
}

#[test]
fn smallest_cycle_needs_blocked_cells_for_the_way_back() {
    let board = vec![vec![0_i8; 5]; 5];
    assert_eq!(LongestCycle::get_smallest_cycle(&board, q(0, 0), q(2, 2)), None);
    let mut board = vec![vec![0_i8; 5]; 5];
    board[1][1] = 1;
    board[3][1] = 1;
    assert_eq!(LongestCycle::get_smallest_cycle(&board, q(1, 1), q(3, 1)), None);
    board[2][1] = 1;
    assert!(LongestCycle::get_smallest_cycle(&board, q(1, 1), q(3, 1)).is_some());
}

#[test]
fn smallest_cycle_of_two_neighbours_is_the_two() {
    let mut board = vec![vec![0_i8; 4]; 4];
    board[1][1] = 1;
    board[2][1] = 1;
    let cycle = LongestCycle::get_smallest_cycle(&board, q(1, 1), q(2, 1)).unwrap();
    assert_eq!(cycle, vec![q(1, 1), q(2, 1)]);
}

#[test]
fn smallest_cycle_through_one_cell_is_that_cell() {
    let board = vec![vec![0_i8; 4]; 4];
    assert_eq!(LongestCycle::get_smallest_cycle(&board, q(1, 1), q(1, 1)), Some(vec![q(1, 1)]));
}

#[test]
fn smallest_cycle_fails_off_the_board_and_on_ragged_boards() {
    let board = walled_board(6);
    assert_eq!(LongestCycle::get_smallest_cycle(&board, q(6, 1), q(1, 1)), None);
    assert_eq!(LongestCycle::get_smallest_cycle(&board, q(3, 1), q(1, 6)), None);
    let empty: Vec<Vec<i8>> = Vec::new();
    assert_eq!(LongestCycle::get_smallest_cycle(&empty, q(0, 0), q(0, 0)), None);
    let ragged = vec![vec![1_i8; 3], vec![1_i8; 1], vec![1_i8; 3]];
    assert_eq!(LongestCycle::get_smallest_cycle(&ragged, q(0, 0), q(2, 2)), None);
}

#[test]
fn extend_cycle_tries_the_plus_side_first() {
    let board = vec![vec![0_i8; 4]; 4];
    let square = vec![q(1, 1), q(2, 1), q(2, 2), q(1, 2)];
    let mut cycle = square.clone();
    assert!(LongestCycle::extend_cycle(&board, &mut cycle, 0));
    assert_eq!(cycle, vec![q(1, 1), q(1, 0), q(2, 0), q(2, 1), q(2, 2), q(1, 2)]);
    let mut cycle = square.clone();
    assert!(LongestCycle::extend_cycle(&board, &mut cycle, 1));
    assert_eq!(cycle, vec![q(1, 1), q(2, 1), q(3, 1), q(3, 2), q(2, 2), q(1, 2)]);
    let mut cycle = square.clone();
    assert!(LongestCycle::extend_cycle(&board, &mut cycle, 2));
    assert_eq!(cycle, vec![q(1, 1), q(2, 1), q(2, 2), q(2, 3), q(1, 3), q(1, 2)]);
    let mut line = vec![q(1, 1), q(2, 1)];
    assert!(LongestCycle::extend_cycle(&board, &mut line, 0));
    assert_eq!(line, vec![q(1, 1), q(1, 2), q(2, 2), q(2, 1)]);
}

#[test]
fn extend_cycle_puts_the_cells_of_the_closing_edge_in_front() {
    let board = vec![vec![0_i8; 4]; 4];
    let mut cycle = vec![q(1, 1), q(2, 1), q(2, 2), q(1, 2)];
    assert!(LongestCycle::extend_cycle(&board, &mut cycle, 3));
    assert_eq!(cycle, vec![q(0, 2), q(0, 1), q(1, 1), q(2, 1), q(2, 2), q(1, 2)]);
    assert!(is_closed_simple_loop(&cycle));
}

#[test]
fn extend_cycle_leaves_the_loop_where_nothing_fits() {
    let mut board = vec![vec![0_i8; 4]; 4];
    board[1][0] = 1;
    let square = vec![q(1, 1), q(2, 1), q(2, 2), q(1, 2)];
    let mut cycle = square.clone();
    assert!(!LongestCycle::extend_cycle(&board, &mut cycle, 0));
    assert_eq!(cycle, square);
    let mut cycle = square.clone();
    assert!(!LongestCycle::extend_cycle(&board, &mut cycle, 4));
    assert_eq!(cycle, square);
    let mut none: Vec<Point> = Vec::new();
    assert!(!LongestCycle::extend_cycle(&board, &mut none, 0));
    let ragged = vec![vec![0_i8; 4], vec![0_i8; 3], vec![0_i8; 4], vec![0_i8; 4]];
    let mut cycle = square.clone();
    assert!(!LongestCycle::extend_cycle(&ragged, &mut cycle, 0));
    assert_eq!(cycle, square);
    let small = vec![vec![0_i8; 2]; 2];
    let mut all = vec![q(0, 0), q(1, 0), q(1, 1), q(0, 1)];
    for i in 0..4 {
        assert!(!LongestCycle::extend_cycle(&small, &mut all, i));
    }
}

#[test]
fn extend_cycle_keeps_a_simple_closed_loop_simple_and_closed() {
    let board = walled_board(6);
    let mut cycle = LongestCycle::get_smallest_cycle(&board, q(3, 1), q(1, 1)).unwrap();
    let mut grew = true;
    while grew {
        grew = false;
        for i in 0..cycle.len() {
            let before = cycle.len();
            if LongestCycle::extend_cycle(&board, &mut cycle, i) {
                assert_eq!(cycle.len(), before + 2);
                assert!(is_closed_simple_loop(&cycle));
                grew = true;
                break;
            }
        }
    }
}

#[test]
fn extend_from_widens_at_the_first_edge_of_the_scan() {
    let board = vec![vec![0_i8; 4]; 4];
    let square = vec![q(1, 1), q(2, 1), q(2, 2), q(1, 2)];
    let mut cycle = square.clone();
    assert!(LongestCycle::extend_from(&board, &mut cycle, 2));
    assert_eq!(cycle, vec![q(1, 1), q(2, 1), q(2, 2), q(2, 3), q(1, 3), q(1, 2)]);
    let mut cycle = square.clone();
    assert!(LongestCycle::extend_from(&board, &mut cycle, 7));
    assert_eq!(cycle, vec![q(0, 2), q(0, 1), q(1, 1), q(2, 1), q(2, 2), q(1, 2)]);
    let mut blocked = vec![vec![0_i8; 4]; 4];
    blocked[1][0] = 1;
    let mut cycle = square.clone();
    assert!(LongestCycle::extend_from(&blocked, &mut cycle, 0));
    assert_eq!(cycle, vec![q(1, 1), q(2, 1), q(3, 1), q(3, 2), q(2, 2), q(1, 2)]);
    let small = vec![vec![0_i8; 2]; 2];
    let mut all = vec![q(0, 0), q(1, 0), q(1, 1), q(0, 1)];
    assert!(!LongestCycle::extend_from(&small, &mut all, 1));
    let mut none: Vec<Point> = Vec::new();
    assert!(!LongestCycle::extend_from(&board, &mut none, 0));
}

#[test]
fn grown_cycle_cannot_be_widened() {
    let board = walled_board(6);
    for seed in 0..8u64 {
        let mut rng = StdRng::seed_from_u64(seed);
        let cycle = LongestCycle::create_longest_cycle(&board, q(3, 1), q(1, 1), &mut rng).unwrap();
        assert!(is_closed_simple_loop(&cycle));
        assert!(cycle.len() >= 6);
        let mut again = cycle.clone();
        for i in 0..cycle.len() {
            assert!(!LongestCycle::extend_cycle(&board, &mut again, i));
        }
        assert_eq!(again, cycle);
    }
    let mut rng = StdRng::seed_from_u64(3);
    let free = vec![vec![0_i8; 6]; 6];
    assert_eq!(LongestCycle::create_longest_cycle(&free, q(3, 1), q(1, 1), &mut rng), None);
}

#[test]
fn grown_cycle_depends_on_the_draws() {
    let board = walled_board(6);
    let mut rng = StdRng::seed_from_u64(0);
    let first = LongestCycle::create_longest_cycle(&board, q(3, 1), q(1, 1), &mut rng).unwrap();
    let mut differs = false;
    for seed in 1..40u64 {
        let mut rng = StdRng::seed_from_u64(seed);
        let other = LongestCycle::create_longest_cycle(&board, q(3, 1), q(1, 1), &mut rng).unwrap();
        if other != first {
            differs = true;
        }
    }
    assert!(differs);
}

#[test]
fn longest_cycle_visits_every_cell_once() {
    let board = walled_board(6);
    let longest = LongestCycle::new(&board, 9, 7).unwrap();
    let mut rng = StdRng::seed_from_u64(1);
    let cycle = longest.get_longest_cycle(&mut rng).unwrap();
    assert_eq!(cycle.len(), 36);
    let mut seen = vec![false; 36];
    for &index in cycle.iter() {
        assert!(!seen[index]);
        seen[index] = true;
    }
    for i in 0..cycle.len() {
        let a = Point::get_point_from_index(6, cycle[i]);
        let b = Point::get_point_from_index(6, cycle[(i + 1) % cycle.len()]);
        assert_eq!(a.get_abs_distance(&b), 1);
    }
}

#[test]
fn longest_cycle_is_the_same_for_the_same_seed() {
    let board = walled_board(6);
    let longest = LongestCycle::new(&board, 9, 7).unwrap();
    for seed in 0..5u64 {
        let mut rng = StdRng::seed_from_u64(seed);
        let first = longest.get_longest_cycle(&mut rng);
        let mut rng = StdRng::seed_from_u64(seed);
        let second = longest.get_longest_cycle(&mut rng);
        assert_eq!(first, second);
        let mut rng = StdRng::seed_from_u64(seed);
        let one = longest.try_get_longest_cycle(&mut rng);
        let mut rng = StdRng::seed_from_u64(seed);
        let two = longest.try_get_longest_cycle(&mut rng);
        assert_eq!(one, two);
    }
}

#[test]
fn longest_cycle_fails_without_a_smallest_cycle_or_full_cover() {
    let free = vec![vec![0_i8; 4]; 4];
    let longest = LongestCycle::new(&free, 0, 15).unwrap();
    let mut rng = StdRng::seed_from_u64(5);
    assert_eq!(longest.get_longest_cycle(&mut rng), None);
    assert_eq!(longest.try_get_longest_cycle(&mut rng), None);
    // an odd number of cells cannot be covered by a loop on a grid
    let mut odd = vec![vec![0_i8; 3]; 3];
    odd[0][0] = 1;
    odd[1][0] = 1;
    let longest = LongestCycle::new(&odd, 0, 1).unwrap();
    let mut rng = StdRng::seed_from_u64(5);
    assert_eq!(longest.get_longest_cycle(&mut rng), None);
    assert!(longest.try_get_longest_cycle(&mut rng).is_some());
}

#[test]
fn longest_cycle_covers_the_free_cells_beside_a_blocked_one() {
    // two columns of four cells; the cell (0, 3) is blocked and off the loop
    let mut board = vec![vec![0_i8; 4]; 2];
    board[0][0] = 1;
    board[1][0] = 1;
    board[0][3] = 1;
    board[1][3] = 1;
    let longest = LongestCycle::new(&board, 0, 1).unwrap();
    let mut rng = StdRng::seed_from_u64(2);
    let cycle = longest.get_longest_cycle(&mut rng).unwrap();
    assert_eq!(cycle.len(), 6);
    for index in [0usize, 1, 2, 3, 4, 5].iter() {
        assert!(cycle.contains(index));
    }
}
