use snake::astar::AStar;
use snake::common::Point;
use std::collections::VecDeque;

fn p(x: usize, y: usize) -> Point {
    Point { x, y }
}

fn breadth_first(board: &[Vec<i8>], start: Point, target: Point) -> Option<usize> {
    let width = board.len();
    let height = board[0].len();
    let mut dist: Vec<Vec<Option<usize>>> = vec![vec![None; height]; width];
    let mut queue: VecDeque<Point> = VecDeque::new();
    dist[start.x][start.y] = Some(0);
    queue.push_back(start);
    while let Some(cur) = queue.pop_front() {
        if cur == target {
            return dist[cur.x][cur.y];
        }
        let d = dist[cur.x][cur.y].unwrap();
        let mut next: Vec<Point> = Vec::new();
        if cur.x + 1 < width {
            next.push(p(cur.x + 1, cur.y));
        }
        if cur.y + 1 < height {
            next.push(p(cur.x, cur.y + 1));
        }
        if cur.x > 0 {
            next.push(p(cur.x - 1, cur.y));
        }
        if cur.y > 0 {
            next.push(p(cur.x, cur.y - 1));
        }
        for n in next {
            if board[n.x][n.y] != 1 && dist[n.x][n.y].is_none() {
                dist[n.x][n.y] = Some(d + 1);
                queue.push_back(n);
            }
        }
    }
    None
}

fn sample_boards() -> Vec<Vec<Vec<i8>>> {
    let mut boards: Vec<Vec<Vec<i8>>> = Vec::new();
    boards.push(vec![vec![0_i8; 4]; 4]);
    let mut wall = vec![vec![0_i8; 5]; 4];
    wall[1][0] = 1;
    wall[1][1] = 1;
    wall[1][2] = 1;
    wall[1][3] = 1;
    boards.push(wall);
    let mut maze = vec![vec![0_i8; 5]; 5];
    maze[1][1] = 1;
    maze[1][2] = 1;
    maze[1][3] = 1;
    maze[3][1] = 1;
    maze[3][2] = 1;
    maze[3][3] = 1;
    maze[2][3] = 1;
    boards.push(maze);
    let mut split = vec![vec![0_i8; 3]; 5];
    split[2][0] = 1;
    split[2][1] = 1;
    split[2][2] = 1;
    boards.push(split);
    let mut other = vec![vec![0_i8; 4]; 3];
    other[0][2] = 7;
    other[1][2] = 1;
    other[2][1] = -1;
    boards.push(other);
    boards
}

#[test]
fn test_astar_new() {
    let board = vec![vec![0_i8; 4]; 4];
    let astar = AStar::new(&board, 0, 15);
    assert!(astar.is_some());
    let astar = AStar::new(&board, 0, 16);
    assert!(astar.is_none());
}

#[test]
fn test_astar_calculate_path() {
    let board = vec![vec![0_i8; 4]; 4];
    let astar_maybe = AStar::new(&board, 0, 15);
    assert!(astar_maybe.is_some());
    let astar = astar_maybe.unwrap();
    let path_maybe = astar.calculate_path();
    assert!(path_maybe.is_some());
    let path = path_maybe.unwrap();
    assert_eq!(path.len(), 7);
    let mut board = vec![vec![0_i8; 4]; 4];
    board[1][0] = 1;
    board[0][1] = 1;
    let astar_maybe = AStar::new(&board, 0, 15);
    assert!(astar_maybe.is_some());
    let astar = astar_maybe.unwrap();
    let path_maybe = astar.calculate_path();
    assert!(path_maybe.is_none());
}

#[test]
fn astar_new_rejects_empty_boards_and_a_start_off_the_board() {
    let empty: Vec<Vec<i8>> = Vec::new();
    assert!(AStar::new(&empty, 0, 0).is_none());
    let hollow: Vec<Vec<i8>> = vec![Vec::new(); 2];
    assert!(AStar::new(&hollow, 0, 0).is_none());
    let board = vec![vec![0_i8; 4]; 4];
    assert!(AStar::new(&board, 16, 0).is_none());
    assert!(AStar::new(&board, 15, 15).is_some());
}

#[test]
fn path_with_one_blocked_neighbour_has_seven_cells() {
    let mut board = vec![vec![0_i8; 4]; 4];
    board[0][1] = 1;
    let path = AStar::astar(&board, p(0, 0), p(3, 3)).unwrap();
    assert_eq!(path.len(), 7);
    let astar = AStar::new(&board, 0, 15).unwrap();
    assert_eq!(astar.calculate_path().unwrap().len(), 7);
    board[1][0] = 1;
    assert_eq!(AStar::astar(&board, p(0, 0), p(3, 3)), None);
    let astar = AStar::new(&board, 0, 15).unwrap();
    assert_eq!(astar.calculate_path(), None);
}

#[test]
fn astar_takes_the_first_made_node_among_equals() {
    let mut board = vec![vec![0_i8; 4]; 4];
    board[0][1] = 1;
    let path = AStar::astar(&board, p(0, 0), p(3, 3)).unwrap();
    let expected = vec![p(0, 0), p(1, 0), p(2, 0), p(3, 0), p(3, 1), p(3, 2), p(3, 3)];
    assert_eq!(path, expected);
    let board = vec![vec![0_i8; 3]; 3];
    let path = AStar::astar(&board, p(0, 0), p(2, 2)).unwrap();
    assert_eq!(path, vec![p(0, 0), p(1, 0), p(2, 0), p(2, 1), p(2, 2)]);
}

#[test]
fn calculate_path_gives_row_major_indices() {
    let mut board = vec![vec![0_i8; 4]; 4];
    board[0][1] = 1;
    let astar = AStar::new(&board, 0, 15).unwrap();
    assert_eq!(astar.calculate_path().unwrap(), vec![0, 1, 2, 3, 7, 11, 15]);
}

#[test]
fn astar_path_is_as_long_as_breadth_first_search_says() {
    for board in sample_boards() {
        let width = board.len();
        let height = board[0].len();
        for sx in 0..width {
            for sy in 0..height {
                for tx in 0..width {
                    for ty in 0..height {
                        let start = p(sx, sy);
                        let target = p(tx, ty);
                        let found = AStar::astar(&board, start, target);
                        let wanted = if start != target && board[tx][ty] == 1 {
                            None
                        } else {
                            breadth_first(&board, start, target)
                        };
                        match (found, wanted) {
                            (Some(path), Some(steps)) => assert_eq!(path.len() - 1, steps),
                            (None, None) => {}
                            (found, wanted) => panic!("{:?} to {:?}: {:?} against {:?}", start, target, found, wanted),
                        }
                    }
                }
            }
        }
    }
}

#[test]
fn astar_path_is_a_simple_walk_over_free_cells() {
    for board in sample_boards() {
        let width = board.len();
        let height = board[0].len();
        for sx in 0..width {
            for sy in 0..height {
                let start = p(sx, sy);
                let target = p(width - 1, height - 1);
                if let Some(path) = AStar::astar(&board, start, target) {
                    assert_eq!(path[0], start);
                    assert_eq!(path[path.len() - 1], target);
                    for i in 1..path.len() {
                        assert_eq!(path[i - 1].get_abs_distance(&path[i]), 1);
                        assert!(board[path[i].x][path[i].y] != 1);
                    }
                    for i in 0..path.len() {
                        for j in 0..i {
                            assert!(path[i] != path[j]);
                        }
                    }
                }
            }
        }
    }
}

#[test]
fn astar_gives_the_same_path_each_time() {
    for board in sample_boards() {
        let target = p(board.len() - 1, board[0].len() - 1);
        let first = AStar::astar(&board, p(0, 0), target);
        let second = AStar::astar(&board, p(0, 0), target);
        assert_eq!(first, second);
    }
}

#[test]
fn astar_finds_nothing_off_the_board_or_behind_a_wall() {
    let board = vec![vec![0_i8; 4]; 4];
    assert_eq!(AStar::astar(&board, p(4, 0), p(3, 3)), None);
    assert_eq!(AStar::astar(&board, p(0, 0), p(3, 4)), None);
    assert_eq!(AStar::astar(&board, p(0, 4), p(0, 0)), None);
    let mut walled = vec![vec![0_i8; 4]; 4];
    walled[2][3] = 1;
    walled[3][2] = 1;
    assert_eq!(AStar::astar(&walled, p(0, 0), p(3, 3)), None);
    let mut blocked = vec![vec![0_i8; 4]; 4];
    blocked[3][3] = 1;
    assert_eq!(AStar::astar(&blocked, p(0, 0), p(3, 3)), None);
}

#[test]
fn astar_finds_nothing_on_an_empty_or_ragged_board() {
    let empty: Vec<Vec<i8>> = Vec::new();
    assert_eq!(AStar::astar(&empty, p(0, 0), p(0, 0)), None);
    let hollow: Vec<Vec<i8>> = vec![Vec::new(); 3];
    assert_eq!(AStar::astar(&hollow, p(0, 0), p(0, 0)), None);
    let ragged = vec![vec![0_i8; 3], vec![0_i8; 2], vec![0_i8; 3]];
    assert_eq!(AStar::astar(&ragged, p(0, 0), p(2, 2)), None);
}

#[test]
fn astar_from_a_cell_to_itself_is_that_cell() {
    let mut board = vec![vec![0_i8; 4]; 4];
    assert_eq!(AStar::astar(&board, p(2, 1), p(2, 1)), Some(vec![p(2, 1)]));
    board[2][1] = 1;
    assert_eq!(AStar::astar(&board, p(2, 1), p(2, 1)), Some(vec![p(2, 1)]));
}

#[test]
fn astar_starts_from_a_blocked_cell() {
    let mut board = vec![vec![0_i8; 3]; 3];
    board[0][0] = 1;
    let path = AStar::astar(&board, p(0, 0), p(0, 2)).unwrap();
    assert_eq!(path, vec![p(0, 0), p(0, 1), p(0, 2)]);
}

#[test]
fn astar_works_on_boards_that_are_not_square() {
    let mut board = vec![vec![0_i8; 2]; 6];
    board[3][0] = 1;
    let path = AStar::astar(&board, p(0, 0), p(5, 0)).unwrap();
    assert_eq!(path.len(), 8);
    let astar = AStar::new(&board, 0, 5).unwrap();
    assert_eq!(astar.calculate_path().unwrap(), vec![0, 1, 2, 8, 9, 10, 11, 5]);
}
