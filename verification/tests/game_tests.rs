use snake::constants::{BOARD_HEIGHT, BOARD_WIDTH};
use snake::game::{Block, Direction, Position, Snake};

#[test]
fn test_position_new() {
    let pos = Position::new();
    assert_eq!(pos.x, BOARD_WIDTH / 2);
    assert_eq!(pos.y, BOARD_HEIGHT / 2);
}

#[test]
fn test_position_offset() {
    let pos1 = Position::new();
    let mut pos2 = Position::new();
    pos2.offset(0, 0);
    assert_eq!(pos2.x, pos1.x);
    pos2 = Position::new();
    pos2.offset(1, 0);
    assert_eq!(pos2.x, pos1.x + 1);
    pos2 = Position::new();
    pos2.offset(-1, 0);
    assert_eq!(pos2.x + 1, pos1.x);
    pos2 = Position::new();
    pos2.offset(BOARD_WIDTH as i8, 0);
    assert_eq!(pos2.x, pos1.x);
    pos2 = Position::new();
    pos2.offset((BOARD_WIDTH as i8) + 1, 0);
    assert_eq!(pos2.x, pos1.x + 1);
    pos2 = Position::new();
    pos2.offset(-(BOARD_WIDTH as i8), 0);
    assert_eq!(pos2.x, pos1.x);
    pos2 = Position::new();
    pos2.offset(-(BOARD_WIDTH as i8) - 1, 0);
    assert_eq!(pos2.x + 1, pos1.x);
}

#[test]
fn test_position_new_offset() {
    let mut pos1 = Position::new();
    let mut pos2 = Position::new_offset(0, 0);
    assert_eq!(pos1, pos2);
    pos1 = Position::new();
    pos1.offset(1, 0);
    pos2 = Position::new_offset(1, 0);
    assert_eq!(pos1, pos2);
    pos1 = Position::new();
    pos1.offset(-1, 0);
    pos2 = Position::new_offset(-1, 0);
    assert_eq!(pos1, pos2);
    pos1 = Position::new();
    pos1.offset(BOARD_WIDTH as i8, 0);
    pos2 = Position::new_offset(BOARD_WIDTH as i8, 0);
    assert_eq!(pos1, pos2);
    pos1 = Position::new();
    pos1.offset(BOARD_WIDTH as i8 + 1, 0);
    pos2 = Position::new_offset(BOARD_WIDTH as i8 + 1, 0);
    assert_eq!(pos1, pos2);
    pos1 = Position::new();
    pos1.offset(-(BOARD_WIDTH as i8), 0);
    pos2 = Position::new_offset(-(BOARD_WIDTH as i8), 0);
    assert_eq!(pos1, pos2);
    pos1 = Position::new();
    pos1.offset(-(BOARD_WIDTH as i8) - 1, 0);
    pos2 = Position::new_offset(-(BOARD_WIDTH as i8) - 1, 0);
    assert_eq!(pos1, pos2);
}

#[test]
fn calc_offset_stays_at_the_ends_and_goes_round_between_them() {
    assert_eq!(Position::calc_offset(0, -1, 10), 0);
    assert_eq!(Position::calc_offset(0, -128, 10), 0);
    assert_eq!(Position::calc_offset(9, 1, 10), 9);
    assert_eq!(Position::calc_offset(9, 127, 10), 9);
    assert_eq!(Position::calc_offset(12, 1, 10), 12);
    assert_eq!(Position::calc_offset(0, 1, 10), 1);
    assert_eq!(Position::calc_offset(9, -1, 10), 8);
    assert_eq!(Position::calc_offset(5, 0, 10), 5);
    assert_eq!(Position::calc_offset(5, 7, 10), 2);
    assert_eq!(Position::calc_offset(1, -3, 10), 8);
    assert_eq!(Position::calc_offset(5, -128, 10), 7);
    assert_eq!(Position::calc_offset(5, 127, 10), 2);
    assert_eq!(Position::calc_offset(3, -25, 7), 6);
    assert_eq!(Position::calc_offset(0, 0, 1), 0);
    assert_eq!(Position::calc_offset(200, 100, 255), 45);
    assert_eq!(Position::calc_offset(250, -100, 255), 150);
}

#[test]
fn position_new_xy_keeps_both_coordinates() {
    let pos = Position::new_xy(3, 8);
    assert_eq!(pos.x, 3);
    assert_eq!(pos.y, 8);
    assert_eq!(pos, Position { x: 3, y: 8 });
}

#[test]
fn position_offset_moves_both_coordinates() {
    let mut pos = Position::new_xy(0, 9);
    pos.offset(-1, 1);
    assert_eq!(pos, Position::new_xy(0, 9));
    pos.offset(3, -4);
    assert_eq!(pos, Position::new_xy(3, 5));
}

#[test]
fn direction_opposite_turns_round() {
    assert_eq!(Direction::UP.opposite(), Direction::DOWN);
    assert_eq!(Direction::DOWN.opposite(), Direction::UP);
    assert_eq!(Direction::LEFT.opposite(), Direction::RIGHT);
    assert_eq!(Direction::RIGHT.opposite(), Direction::LEFT);
    let mut dir = Direction::LEFT;
    let back = dir.opposite();
    assert_eq!(dir, Direction::LEFT);
    let mut back = back;
    assert_eq!(back.opposite(), dir);
}

#[test]
fn test_snake_new() {
    let snake = Snake::new();
    assert_eq!(snake.body.len(), 3);
    assert_eq!(snake.direction, Direction::RIGHT);
    let pos1 = Position::new();
    let pos2 = Position::new_offset(-1, 0);
    let pos3 = Position::new_offset(-2, 0);
    assert_eq!(snake.body[0].position, pos1);
    assert_eq!(snake.body[1].position, pos2);
    assert_eq!(snake.body[2].position, pos3);
}

#[test]
fn test_snake_next_head_pos() {
    let mut snake = Snake::new();
    let next_pos = snake.next_head_pos();
    let pos = Position::new_offset(1, 0);
    assert_eq!(next_pos, pos);
}

#[test]
fn test_snake_check_collide_wall() {
    let snake = Snake::new();
    let mut pos = Position::new();
    assert!(snake.check_collide_wall(pos));
    pos = Position::new_offset(1, 0);
    assert!(!snake.check_collide_wall(pos));
}

#[test]
fn test_snake_check_collide_body() {
    let snake = Snake::new();
    let mut pos = Position::new();
    assert!(snake.check_collide_body(pos));
    pos.offset(1, 0);
    assert!(!snake.check_collide_body(pos));
    pos.offset(-3, 0);
    assert!(snake.check_collide_body(pos));
    pos.offset(-4, 0);
    assert!(!snake.check_collide_body(pos));
}

#[test]
fn test_snake_move_next() {
    let mut snake = Snake::new();
    snake.move_next();
    let mut pos = Position::new_offset(1, 0);
    assert_eq!(snake.body[0].position, pos);
    pos = Position::new_offset(-1, 0);
    assert_eq!(snake.body[2].position, pos);
    pos = Position::new_offset(-2, 0);
    assert!(!snake.check_collide_body(pos));
}

#[test]
fn test_snake_eat_next() {
    let mut snake = Snake::new();
    let mut next_pos = snake.next_head_pos();
    snake.eat_next(&mut next_pos);
    assert_eq!(snake.body.len(), 4);
    let mut pos = Position::new_offset(1, 0);
    assert_eq!(snake.body[0].position, pos);
    pos = Position::new_offset(-2, 0);
    assert_eq!(snake.body[3].position, pos);
    pos = Position::new_offset(-3, 0);
    assert!(!snake.check_collide_body(pos));
}

#[test]
fn test_snake_update() {
    let mut snake = Snake::new();
    snake.update(Direction::LEFT);
    assert_eq!(snake.direction, Direction::RIGHT);
    snake = Snake::new();
    snake.update(Direction::UP);
    assert_eq!(snake.direction, Direction::UP);
    snake = Snake::new();
    snake.update(Direction::DOWN);
    assert_eq!(snake.direction, Direction::DOWN);
    snake = Snake::new();
    snake.update(Direction::RIGHT);
    assert_eq!(snake.direction, Direction::RIGHT);
}

#[test]
fn test_snake_perform_next() {
    let mut snake = Snake::new();
    let mut food = Position::new_offset(1, 0);
    snake.perform_next(&mut food);
    assert_eq!(snake.body.len(), 4);
    food = Position::new_offset(0, 1);
    snake.update(Direction::UP);
    snake.perform_next(&mut food);
    let mut pos = Position::new_offset(1, -1);
    assert_eq!(snake.body[0].position, pos);
    pos = Position::new_offset(-1, 0);
    assert_eq!(snake.body[3].position, pos);
    pos = Position::new_offset(-2, 0);
    assert!(!snake.check_collide_body(pos));
    // Check whether we collide with the walls and die
    while snake.body[0].position.y >= 1 {
        snake.perform_next(&mut food);
    }
    let next_pos = snake.next_head_pos();
    assert!(snake.check_collide_wall(next_pos));
    assert!(snake.alive);
    snake.perform_next(&mut food);
    assert!(!snake.alive);
    // Check whether we collide with ourself and die
    snake = Snake::new();
    food = Position::new_offset(1, 0);
    snake.perform_next(&mut food);
    food = Position::new_offset(2, 0);
    snake.perform_next(&mut food);
    assert_eq!(snake.body.len(), 5);
    snake.update(Direction::UP);
    snake.perform_next(&mut food);
    snake.update(Direction::LEFT);
    snake.perform_next(&mut food);
    snake.update(Direction::DOWN);
    snake.perform_next(&mut food);
    assert!(!snake.alive);
    // Check whether we collide with the walls and die
    snake = Snake::new();
    snake.update(Direction::DOWN);
    snake.perform_next(&mut food);
    pos = Position::new_offset(0, 1);
    assert_eq!(snake.body[0].position, pos);
    while snake.body[0].position.y <= BOARD_HEIGHT - 2 {
        snake.perform_next(&mut food);
    }
    let next_pos = snake.next_head_pos();
    println!("Head: {:?}; Next: {:?}; Alive: {}", snake.body[0].position, next_pos, snake.alive);
    snake.perform_next(&mut food);
    println!("Head: {:?}; Next: {:?}; Alive: {}", snake.body[0].position, next_pos, snake.alive);
    assert!(!snake.alive);
}

#[test]
fn snake_eats_the_food_and_keeps_its_tail() {
    let mut snake = Snake::new();
    let mut food = Position::new_xy(6, 5);
    snake.perform_next(&mut food);
    assert!(snake.eat);
    assert!(snake.alive);
    assert_eq!(food, Position::new_xy(6, 5));
    let cells: Vec<Block> = snake.body.iter().cloned().collect();
    let expected: Vec<Block> = [(6, 5), (5, 5), (4, 5), (3, 5)]
        .iter()
        .map(|&(x, y)| Block { position: Position::new_xy(x, y) })
        .collect();
    assert_eq!(cells, expected);
}

#[test]
fn snake_crawls_and_loses_its_tail() {
    let mut snake = Snake::new();
    let mut food = Position::new_xy(0, 0);
    snake.update(Direction::DOWN);
    snake.perform_next(&mut food);
    assert!(!snake.eat);
    let cells: Vec<Block> = snake.body.iter().cloned().collect();
    let expected: Vec<Block> = [(5, 6), (5, 5), (4, 5)]
        .iter()
        .map(|&(x, y)| Block { position: Position::new_xy(x, y) })
        .collect();
    assert_eq!(cells, expected);
}

#[test]
fn dead_snake_does_not_move() {
    let mut snake = Snake::new();
    snake.alive = false;
    let mut food = Position::new_xy(6, 5);
    snake.perform_next(&mut food);
    assert_eq!(snake.body.len(), 3);
    assert_eq!(snake.body[0].position, Position::new());
    assert!(!snake.alive);
    assert!(!snake.eat);
}

#[test]
fn snake_check_eat_food_compares_the_cells() {
    let snake = Snake::new();
    assert!(snake.check_eat_food(Position::new_xy(1, 2), Position::new_xy(1, 2)));
    assert!(!snake.check_eat_food(Position::new_xy(1, 2), Position::new_xy(2, 1)));
}

#[test]
fn sorted_index_puts_the_fittest_first() {
    assert_eq!(snake::brain::get_sorted_index(&vec![5, 10]), vec![1, 0]);
    assert_eq!(snake::brain::get_sorted_index(&vec![5, 10, 7]), vec![1, 2, 0]);
    assert_eq!(snake::brain::get_sorted_index(&vec![3, 9, 3, -4, 9, 3]), vec![1, 4, 0, 2, 5, 3]);
    assert_eq!(snake::brain::get_sorted_index(&vec![]), Vec::<usize>::new());
    assert_eq!(snake::brain::get_sorted_index(&vec![i64::MIN, i64::MAX]), vec![1, 0]);
}

#[test]
fn brain_test_population_sort() {
    let mut fitness: Vec<i64> = vec![5, 10];
    let si = snake::brain::get_sorted_index(&fitness);
    assert_eq!(si, vec![1, 0]);
    fitness = vec![5, 10, 7];
    let si = snake::brain::get_sorted_index(&fitness);
    assert_eq!(si, vec![1, 2, 0]);
}

#[test]
fn snake_senses_walls_itself_and_the_food() {
    let snake = Snake::new();
    let none = vec![false, false, false, false, true, false, false, false];
    assert_eq!(snake.get_nn_inputs(Position::new_xy(0, 0)), none);
    let right = snake.get_nn_inputs(Position::new_xy(6, 5));
    assert_eq!(right, vec![false, true, false, false, true, false, false, false]);
    let left = snake.get_nn_inputs(Position::new_xy(1, 5));
    assert_eq!(left, vec![false, false, false, false, true, true, false, false]);
    let greater_y = snake.get_nn_inputs(Position::new_xy(5, 8));
    assert_eq!(greater_y, vec![false, false, false, true, true, false, false, false]);
    let smaller_y = snake.get_nn_inputs(Position::new_xy(5, 2));
    assert_eq!(smaller_y, vec![false, false, false, false, true, false, false, true]);
    let mut cornered = Snake::new();
    let mut food = Position::new_xy(0, 0);
    for _ in 0..4 {
        cornered.perform_next(&mut food);
    }
    cornered.update(Direction::UP);
    for _ in 0..5 {
        cornered.perform_next(&mut food);
    }
    assert_eq!(cornered.body[0].position, Position::new_xy(9, 0));
    let sensed = cornered.get_nn_inputs(Position::new_xy(0, 0));
    assert_eq!(sensed, vec![true, false, true, false, false, true, true, false]);
}

#[test]
fn snake_food_distance_counts_steps() {
    let snake = Snake::new();
    assert_eq!(snake.get_food_dist(Position::new_xy(5, 5)), 0);
    assert_eq!(snake.get_food_dist(Position::new_xy(0, 9)), 9);
    assert_eq!(snake.get_food_dist(Position::new_xy(9, 0)), 9);
    assert_eq!(snake.get_food_dist(Position::new_xy(255, 255)), 500);
}

#[test]
fn snake_direction_from_index_keeps_its_way_for_other_numbers() {
    let mut snake = Snake::new();
    assert_eq!(snake.get_direction_from_index(0), Direction::RIGHT);
    assert_eq!(snake.get_direction_from_index(1), Direction::UP);
    assert_eq!(snake.get_direction_from_index(2), Direction::LEFT);
    assert_eq!(snake.get_direction_from_index(3), Direction::DOWN);
    assert_eq!(snake.get_direction_from_index(4), Direction::RIGHT);
    snake.update(Direction::DOWN);
    assert_eq!(snake.get_direction_from_index(usize::MAX), Direction::DOWN);
}

#[test]
fn snake_is_dead_on_its_own_cells_and_at_the_wall() {
    let snake = Snake::new();
    assert!(snake.get_pos_dead(Position::new_xy(5, 5)));
    assert!(snake.get_pos_dead(Position::new_xy(3, 5)));
    assert!(!snake.get_pos_dead(Position::new_xy(6, 5)));
    assert!(!snake.get_pos_dead(Position::new_xy(2, 5)));
}
