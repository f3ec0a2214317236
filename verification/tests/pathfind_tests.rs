use itertools::Itertools;
use snake::constants::{BOARD_HEIGHT, BOARD_WIDTH};
use snake::game::Position;
use snake::pathfind::{astar, AStar, Hamiltonian, Node, NodeList};

#[test]
fn test_nodelist_sort() {
    let mut nodes = NodeList::new();
    nodes.push(Node::new(0, Position::new_xy(0, 0), 0, 0, 1), 0);
    nodes.push(Node::new(1, Position::new_xy(0, 0), 0, 0, 2), 0);
    nodes.push(Node::new(2, Position::new_xy(0, 0), 0, 0, 3), 1);
    assert_eq!(nodes.nodes[0].f, 1);
    assert_eq!(nodes.parents[0], 0);
    nodes.sort();
    assert_eq!(nodes.nodes[0].f, 3);
    assert_eq!(nodes.parents[0], 1);
}

#[test]
fn test_nodelist_pop() {
    let mut nodes = NodeList::new();
    nodes.push(Node::new(0, Position::new_xy(0, 0), 0, 0, 1), 0);
    nodes.push(Node::new(1, Position::new_xy(0, 0), 0, 0, 2), 0);
    nodes.push(Node::new(2, Position::new_xy(0, 0), 0, 0, 3), 1);
    assert_eq!(nodes.length, 3);
    let (node, parent) = nodes.pop().unwrap();
    assert_eq!(node.index, 2);
    assert_eq!(parent, 1);
    assert_eq!(nodes.length, 2);
    let (node, parent) = nodes.pop().unwrap();
    assert_eq!(node.index, 1);
    assert_eq!(parent, 0);
    assert_eq!(nodes.length, 1);
    let (node, parent) = nodes.pop().unwrap();
    assert_eq!(node.index, 0);
    assert_eq!(parent, 0);
    assert_eq!(nodes.length, 0);
    let nothing = nodes.pop();
    assert!(nothing.is_none());
}

#[test]
fn test_astar() {
    let mut board = vec![vec![0; BOARD_WIDTH as usize]; BOARD_HEIGHT as usize];
    board[6][6] = 1;
    board[6][5] = 1;
    board[5][4] = 1;

    let start = Position::new_xy(5, 5);
    let end = Position::new_xy(5, 2);
    let path_list = astar(&board, start, end);
    assert!(path_list.is_some());
    println!("{:?}", path_list);
    assert_eq!(path_list.unwrap().len(), 6);
}

#[test]
fn test_astar_calc_path() {
    let board = vec![vec![0; BOARD_WIDTH as usize]; BOARD_HEIGHT as usize];
    let start = Position::new_xy(5, 5);
    let end = Position::new_xy(7, 4);
    let mut astar = AStar::new(start, end, board);
    astar.calc_path();
    println!("{:?}", astar.get_path());
    assert_eq!(astar.get_path().len(), 4);
}

#[test]
fn test_hamiltonian_new() {
    let ham = Hamiltonian::new(5, 6, 3);
    assert_eq!(ham.graph().len(), 30);
    assert_eq!(ham.graph().get(&0).unwrap().len(), 2);
    assert_eq!(ham.graph().get(&4).unwrap().len(), 2);
    assert_eq!(ham.graph().get(&25).unwrap().len(), 2);
    assert_eq!(ham.graph().get(&29).unwrap().len(), 2);
}

#[test]
fn test_create_graph() {
    let mut ham = Hamiltonian::new(5, 6, 3);
    let path = ham.calc_hamiltonian_cycle();
    println!("{:?}", path);
    assert!(path.is_some());
    let this_path = path.unwrap();
    assert_eq!(this_path.len(), 5 * 6);
    assert_eq!(this_path[0], 3);
    let mut ham = Hamiltonian::new(3, 3, 0);
    let path = ham.calc_hamiltonian_cycle();
    println!("{:?}", path);
    assert!(path.is_none());
    let mut ham = Hamiltonian::new(2, 2, 0);
    let path = ham.calc_hamiltonian_cycle();
    println!("{:?}", path);
    assert!(path.is_some());
    let this_path = path.unwrap();
    assert_eq!(this_path.len(), 2 * 2);
    assert_eq!(this_path[0], 0);
}

#[test]
fn test_hamiltonian_max() {
    let mut ham = Hamiltonian::new(6, 6, 0);
    let path = ham.calc_hamiltonian_cycle();
    println!("{:?}", path);
    assert!(path.is_some());
    assert_eq!(path.unwrap().len(), 6 * 6);
}

#[test]
fn get_permutations() {
    let perms: Vec<Vec<usize>> = (0..3).map(|_| (0..2)).multi_cartesian_product().collect();
    println!("{:?}", perms);
    assert_eq!(perms.len(), 2_usize.pow(3));
}

#[test]
fn nodelist_sort_keeps_the_order_of_equal_nodes() {
    let mut nodes = NodeList::new();
    let costs = [4, 7, 4, 1, 7, 4, 9];
    for (i, &f) in costs.iter().enumerate() {
        nodes.push(Node::new(i, Position::new_xy(0, 0), 0, 0, f), 10 * i);
    }
    nodes.sort();
    let order: Vec<usize> = nodes.nodes.iter().map(|n| n.index).collect();
    assert_eq!(order, vec![6, 1, 4, 0, 2, 5, 3]);
    assert_eq!(nodes.parents, vec![60, 10, 40, 0, 20, 50, 30]);
    assert_eq!(nodes.length, 7);
    let (top, parent) = nodes.pop().unwrap();
    assert_eq!(top.f, 1);
    assert_eq!(parent, 30);
    let mut empty = NodeList::new();
    empty.sort();
    assert_eq!(empty.length, 0);
}

#[test]
fn node_new_keeps_its_fields() {
    let node = Node::new(3, Position::new_xy(1, 2), 4, 5, 9);
    assert_eq!(node.index, 3);
    assert_eq!(node.position, Position::new_xy(1, 2));
    assert_eq!(node.g, 4);
    assert_eq!(node.h, 5);
    assert_eq!(node.f, 9);
}

#[test]
fn field_path_starts_and_ends_where_asked() {
    let mut board = vec![vec![0; BOARD_WIDTH as usize]; BOARD_HEIGHT as usize];
    board[6][6] = 1;
    board[6][5] = 1;
    board[5][4] = 1;
    let start = Position::new_xy(5, 5);
    let end = Position::new_xy(5, 2);
    let path = astar(&board, start, end).unwrap();
    assert_eq!(path[0], start);
    assert_eq!(path[5], end);
    for i in 1..path.len() {
        let dx = (path[i].x as i32 - path[i - 1].x as i32).abs();
        let dy = (path[i].y as i32 - path[i - 1].y as i32).abs();
        assert_eq!(dx + dy, 1);
        assert!(board[path[i].x as usize][path[i].y as usize] != 1);
    }
}

#[test]
fn field_path_fails_on_a_small_board_and_off_the_field() {
    let small = vec![vec![0_i8; 9]; 10];
    assert_eq!(astar(&small, Position::new_xy(1, 1), Position::new_xy(2, 2)), None);
    let short = vec![vec![0_i8; 10]; 9];
    assert_eq!(astar(&short, Position::new_xy(1, 1), Position::new_xy(2, 2)), None);
    let large = vec![vec![0_i8; 12]; 12];
    assert_eq!(astar(&large, Position::new_xy(1, 1), Position::new_xy(10, 2)), None);
    assert_eq!(astar(&large, Position::new_xy(1, 11), Position::new_xy(1, 2)), None);
    assert_eq!(astar(&large, Position::new_xy(1, 1), Position::new_xy(9, 9)).unwrap().len(), 17);
}

#[test]
fn field_path_stays_on_the_field_of_a_larger_board() {
    // the way round the wall would leave the field
    let mut board = vec![vec![0_i8; 12]; 12];
    for x in 0..10 {
        board[x][5] = 1;
    }
    assert_eq!(astar(&board, Position::new_xy(0, 0), Position::new_xy(0, 9)), None);
}

#[test]
fn calc_path_keeps_the_last_path_where_none_is_found() {
    let mut board = vec![vec![0; BOARD_WIDTH as usize]; BOARD_HEIGHT as usize];
    board[0][1] = 1;
    board[1][0] = 1;
    let mut search = AStar::new(Position::new_xy(0, 0), Position::new_xy(5, 5), board);
    assert_eq!(search.get_path().len(), 0);
    search.calc_path();
    assert_eq!(search.get_path().len(), 0);
}

#[test]
fn create_graph_lists_west_east_north_south() {
    let graph = Hamiltonian::create_graph(3, 2);
    assert_eq!(graph.len(), 6);
    assert_eq!(graph.get(&0).unwrap(), &vec![1, 3]);
    assert_eq!(graph.get(&1).unwrap(), &vec![0, 2, 4]);
    assert_eq!(graph.get(&2).unwrap(), &vec![1, 5]);
    assert_eq!(graph.get(&3).unwrap(), &vec![4, 0]);
    assert_eq!(graph.get(&4).unwrap(), &vec![3, 5, 1]);
    assert_eq!(graph.get(&5).unwrap(), &vec![4, 2]);
    assert_eq!(Hamiltonian::create_graph(0, 5).len(), 0);
    assert_eq!(Hamiltonian::create_graph(5, 0).len(), 0);
    let single = Hamiltonian::create_graph(1, 1);
    assert_eq!(single.get(&0).unwrap().len(), 0);
}

#[test]
fn hamiltonian_cycle_on_the_smallest_grids() {
    let mut ham = Hamiltonian::new(2, 2, 0);
    assert_eq!(ham.calc_hamiltonian_cycle(), Some(vec![0, 1, 3, 2]));
    let mut ham = Hamiltonian::new(2, 2, 3);
    assert_eq!(ham.calc_hamiltonian_cycle(), Some(vec![3, 2, 0, 1]));
    let mut ham = Hamiltonian::new(3, 3, 0);
    assert_eq!(ham.calc_hamiltonian_cycle(), None);
    let mut ham = Hamiltonian::new(1, 1, 0);
    assert_eq!(ham.calc_hamiltonian_cycle(), None);
    let mut ham = Hamiltonian::new(0, 0, 0);
    assert_eq!(ham.calc_hamiltonian_cycle(), None);
    let mut ham = Hamiltonian::new(2, 2, 4);
    assert_eq!(ham.calc_hamiltonian_cycle(), None);
    let mut ham = Hamiltonian::new(2, 1, 0);
    assert_eq!(ham.calc_hamiltonian_cycle(), Some(vec![0, 1]));
}

#[test]
fn hamiltonian_cycle_visits_every_cell_once_and_closes() {
    let mut ham = Hamiltonian::new(4, 3, 5);
    let cycle = ham.calc_hamiltonian_cycle().unwrap();
    assert_eq!(cycle.len(), 12);
    assert_eq!(cycle[0], 5);
    let mut seen = vec![false; 12];
    for i in 0..cycle.len() {
        assert!(!seen[cycle[i]]);
        seen[cycle[i]] = true;
        let next = cycle[(i + 1) % cycle.len()];
        assert!(ham.graph().get(&cycle[i]).unwrap().contains(&next));
    }
}

#[test]
fn hamiltonian_cycle_is_the_same_each_time() {
    let mut ham = Hamiltonian::new(4, 4, 0);
    let first = ham.calc_hamiltonian_cycle();
    let second = ham.calc_hamiltonian_cycle();
    assert_eq!(first, second);
    let mut other = Hamiltonian::new(4, 4, 0);
    assert_eq!(other.calc_hamiltonian_cycle(), first);
}

#[test]
fn hamilton_puts_the_point_on_the_path() {
    let graph = Hamiltonian::create_graph(2, 2);
    let mut path: Vec<usize> = vec![0];
    let found = Hamiltonian::hamilton(&graph, 4, 1, &mut path);
    assert_eq!(found, Some(vec![0, 1, 3, 2]));
    assert_eq!(path, vec![0, 1]);
    let mut path: Vec<usize> = vec![0, 1];
    let found = Hamiltonian::hamilton(&graph, 4, 1, &mut path);
    assert_eq!(found, None);
    assert_eq!(path, vec![0, 1]);
    let mut path: Vec<usize> = vec![0, 3];
    let found = Hamiltonian::hamilton(&graph, 4, 1, &mut path);
    assert_eq!(found, None);
    assert_eq!(path, vec![0, 3, 1]);
}
