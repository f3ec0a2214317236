use snake::common::{is_rectangular, Point};

#[test]
fn test_point_get_offset_dimension() {
    let new_val = Point::get_offset_dimension(10, 2, 1);
    assert_eq!(new_val, Some(3));
    let new_val = Point::get_offset_dimension(10, 2, -1);
    assert_eq!(new_val, Some(1));
    let new_val = Point::get_offset_dimension(10, 2, 3);
    assert_eq!(new_val, Some(5));
    let new_val = Point::get_offset_dimension(10, 2, -2);
    assert_eq!(new_val, Some(0));
    let new_val = Point::get_offset_dimension(10, 2, 8);
    assert_eq!(new_val, None);
    let new_val = Point::get_offset_dimension(10, 2, -3);
    assert_eq!(new_val, None);
    let new_val = Point::get_offset_dimension(10, 2, 10);
    assert_eq!(new_val, None);
    let new_val = Point::get_offset_dimension(10, 2, -5);
    assert_eq!(new_val, None);
}

#[test]
fn test_point_get_offset() {
    let point = Point { x: 2, y: 2 };
    let new_point = point.get_offset(10, 10, 0, 0);
    assert_eq!(new_point, Some(Point { x: 2, y: 2 }));
    let new_point = point.get_offset(10, 10, -2, -2);
    assert_eq!(new_point, Some(Point { x: 0, y: 0 }));
    let new_point = point.get_offset(10, 10, 7, 7);
    assert_eq!(new_point, Some(Point { x: 9, y: 9 }));
    let new_point = point.get_offset(10, 10, 8, 7);
    assert_eq!(new_point, None);
    let new_point = point.get_offset(10, 10, 7, 8);
    assert_eq!(new_point, None);
    let new_point = point.get_offset(10, 10, -3, -3);
    assert_eq!(new_point, None);
}

#[test]
fn test_point_get_abs_distance() {
    let point = Point { x: 2, y: 2 };
    let other = Point { x: 0, y: 8 };
    assert_eq!(point.get_abs_distance(&other), 8);
}

#[test]
fn offset_dimension_does_not_wrap_at_the_ends_of_the_word() {
    assert_eq!(Point::get_offset_dimension(usize::MAX, usize::MAX - 1, 1), None);
    assert_eq!(Point::get_offset_dimension(usize::MAX, 0, isize::MIN), None);
    assert_eq!(Point::get_offset_dimension(usize::MAX, usize::MAX - 2, 1), Some(usize::MAX - 1));
    assert_eq!(Point::get_offset_dimension(0, 0, 0), None);
    assert_eq!(Point::get_offset_dimension(1, 0, 0), Some(0));
    assert_eq!(Point::get_offset_dimension(10, 9, 1), None);
    assert_eq!(Point::get_offset_dimension(10, 0, -1), None);
}

#[test]
fn abs_distance_is_symmetric_and_zero_on_the_same_cell() {
    let a = Point { x: 7, y: 1 };
    let b = Point { x: 3, y: 4 };
    assert_eq!(a.get_abs_distance(&b), 7);
    assert_eq!(b.get_abs_distance(&a), 7);
    assert_eq!(a.get_abs_distance(&a), 0);
}

#[test]
fn index_and_point_are_inverses() {
    for width in 1..6usize {
        for index in 0..40usize {
            let p = Point::get_point_from_index(width, index);
            assert!(p.x < width);
            assert_eq!(Point::get_index_from_point(width, &p), index);
        }
    }
    let p = Point::get_point_from_index(4, 15);
    assert_eq!(p, Point { x: 3, y: 3 });
    assert_eq!(Point::get_index_from_point(4, &Point { x: 1, y: 2 }), 9);
    assert_eq!(Point::get_point_from_index(6, 9), Point { x: 3, y: 1 });
}

#[test]
fn within_board_checks_both_extents() {
    // three columns of five cells: x runs to 3, y to 5
    let board = vec![vec![0_i8; 5]; 3];
    assert!(Point::point_within_board(&board, Point { x: 2, y: 4 }));
    assert!(!Point::point_within_board(&board, Point { x: 3, y: 0 }));
    assert!(!Point::point_within_board(&board, Point { x: 0, y: 5 }));
    assert!(Point::index_within_board(&board, 14));
    assert!(!Point::index_within_board(&board, 15));
    let empty: Vec<Vec<i8>> = Vec::new();
    assert!(!Point::point_within_board(&empty, Point { x: 0, y: 0 }));
    assert!(!Point::index_within_board(&empty, 0));
    let hollow: Vec<Vec<i8>> = vec![Vec::new(); 3];
    assert!(!Point::point_within_board(&hollow, Point { x: 0, y: 0 }));
    assert!(!Point::index_within_board(&hollow, 0));
}

#[test]
fn rectangular_boards_are_told_from_ragged_ones() {
    let board = vec![vec![0_i8; 5]; 3];
    assert!(is_rectangular(&board));
    let ragged = vec![vec![0_i8; 5], vec![0_i8; 4], vec![0_i8; 5]];
    assert!(!is_rectangular(&ragged));
    let empty: Vec<Vec<i8>> = Vec::new();
    assert!(is_rectangular(&empty));
}
