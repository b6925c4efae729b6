use hematite::{Board, Move, Point, Snake, SnakeID};

fn pt(x: i32, y: i32) -> Point {
    Point::new(x, y)
}

fn snake(n: u8, body: Vec<Point>) -> Snake {
    let length = body.len() as u32;
    Snake { id: SnakeID::new([n; 24]), health: 90, head: body[0], body, length, squad: None }
}

/// A 3x3 board: `you` in the bottom-left corner, a wall of three cells in the middle column.
fn walled(food: Vec<Point>) -> (Board, Snake) {
    let you = snake(1, vec![pt(0, 0), pt(0, 1)]);
    let wall = snake(2, vec![pt(1, 2), pt(1, 1), pt(1, 0)]);
    let board = Board { height: 3, width: 3, snakes: vec![you.duplicate(), wall], food, hazards: vec![] };
    (board, you)
}

#[test]
fn bodies_and_tails() {
    let (board, you) = walled(vec![]);
    assert!(board.is_snake(&pt(1, 1)));
    assert!(board.is_snake(&pt(0, 0)));
    assert!(!board.is_snake(&pt(1, 0)));
    assert!(board.is_snake(&pt(0, 1)));
    assert!(!board.is_snake(&pt(2, 2)));
    assert!(board.is_snake_move(&you, &pt(2, 2)));
    assert!(!board.is_snake_move(&you, &pt(2, 0)));
    assert!(board.is_unsafe(&you, &pt(3, 0)));
    assert!(board.is_unsafe(&you, &pt(0, 2)));
    assert!(!board.is_unsafe(&you, &pt(2, 1)));
    assert!(board.is_hazard(&you, &pt(0, 2)));
    assert!(!board.is_hazard(&you, &pt(2, 0)));
}

#[test]
fn tail_next_to_food_is_blocked() {
    let (board, _) = walled(vec![pt(2, 2)]);
    assert!(board.is_snake(&pt(1, 0)));
}

#[test]
fn safe_moves_and_neighbors() {
    let (board, you) = walled(vec![]);
    assert_eq!(board.safe_moves(&you), vec![Move::Right]);
    assert_eq!(board.safe_neighbors(&you, &pt(2, 0)), vec![pt(2, 1), pt(1, 0)]);
    assert_eq!(board.forward_moves(&you), vec![Move::Down, Move::Left, Move::Right]);
}

#[test]
fn area_control_counts_strictly_closer_cells() {
    let you = snake(1, vec![pt(0, 0)]);
    let other = snake(2, vec![pt(2, 2)]);
    let board = Board { height: 3, width: 3, snakes: vec![you.duplicate(), other], food: vec![], hazards: vec![] };
    assert_eq!(board.area_control(&you, &pt(0, 0)), 3);
    let alone = Board { height: 3, width: 3, snakes: vec![you.duplicate()], food: vec![], hazards: vec![] };
    assert_eq!(alone.area_control(&you, &pt(0, 0)), 9);
}

#[test]
fn floodfill_counts_reachable_cells_and_food() {
    let (board, you) = walled(vec![pt(2, 1)]);
    assert_eq!(board.floodfill(&you, &pt(2, 0)), (3, 1));
    assert_eq!(board.floodfill(&you, &pt(0, 1)), (0, 0));
}

#[test]
fn trapping_moves_are_dropped() {
    let (board, you) = walled(vec![pt(2, 1)]);
    assert_eq!(board.snake_non_trapping_moves(&you, &vec![Move::Up, Move::Right]), vec![Move::Right]);
    let (board, you) = walled(vec![]);
    let long = Snake { length: 9, ..you.duplicate() };
    assert_eq!(board.snake_non_trapping_moves(&long, &vec![Move::Up, Move::Right]), vec![Move::Right]);
}

#[test]
fn longer_heads_are_avoided() {
    let (board, you) = walled(vec![]);
    assert_eq!(board.snake_head_avoiding_moves(&you, &vec![Move::Up, Move::Right]), vec![Move::Up, Move::Right]);
    let you = snake(1, vec![pt(2, 0)]);
    let other = snake(2, vec![pt(1, 1), pt(1, 2), pt(0, 2)]);
    let board = Board { height: 3, width: 3, snakes: vec![you.duplicate(), other], food: vec![], hazards: vec![] };
    let all = Move::all().to_vec();
    assert_eq!(board.snake_head_avoiding_moves(&you, &all), vec![Move::Down, Move::Right]);
}

#[test]
fn astar_finds_the_way_around() {
    let (board, you) = walled(vec![pt(2, 1)]);
    let path = board.astar_find(&you, &pt(0, 0), &[pt(2, 1)]).unwrap();
    assert_eq!(path, vec![pt(0, 0), pt(1, 0), pt(2, 0), pt(2, 1)]);
    assert_eq!(board.astar_find(&you, &pt(0, 0), &[pt(0, 0)]), Some(vec![pt(0, 0)]));
    assert_eq!(board.astar_find(&you, &pt(0, 0), &[pt(0, 2)]), None);
}

#[test]
fn hungry_move_heads_to_nearest_food() {
    let (board, you) = walled(vec![pt(2, 1), pt(2, 0)]);
    assert_eq!(board.nearest_foods(&pt(0, 0)), vec![pt(2, 0)]);
    assert_eq!(board.hungry_move(&you), Some(Move::Right));
    let (blocked, you) = walled(vec![pt(2, 1), pt(2, 2)]);
    assert_eq!(blocked.hungry_move(&you), None);
    let (empty, you) = walled(vec![]);
    assert_eq!(empty.hungry_move(&you), None);
}

#[test]
fn potential_moves_and_traps() {
    let (board, you) = walled(vec![]);
    assert!(board.is_potential_snake_move(&you, &pt(2, 2)));
    assert!(!board.is_potential_snake_move(&you, &pt(2, 0)));
    assert!(!board.is_trapping(&you, &pt(2, 0)));
    assert!(board.is_trapping(&you, &pt(0, 1)));
    assert!(board.is_hazardous(&you, &pt(2, 2)));
    assert!(!board.is_hazardous(&you, &pt(2, 0)));
}

#[test]
fn aggression_and_fear() {
    let (board, you) = walled(vec![]);
    assert!(!board.is_aggressive(&you));
    assert!(board.is_scared(&you));
    let big = Snake { length: 5, ..snake(1, vec![pt(0, 0), pt(0, 1), pt(0, 2)]) };
    let small1 = snake(2, vec![pt(4, 0), pt(4, 1), pt(4, 2)]);
    let small2 = snake(3, vec![pt(4, 4)]);
    let board = Board { height: 5, width: 5, snakes: vec![big.duplicate(), small1, small2], food: vec![], hazards: vec![] };
    assert!(board.is_aggressive(&big));
    assert!(!board.is_scared(&big));
    assert_eq!(board.aggressive_move(&big), None);
    let alone = Board { height: 5, width: 5, snakes: vec![big.duplicate()], food: vec![], hazards: vec![] };
    assert!(alone.is_scared(&big));
    assert!(!alone.is_aggressive(&big));
}

#[test]
fn accessible_area_counts_the_border_of_the_safe_region() {
    let (board, you) = walled(vec![]);
    assert_eq!(board.area_accessible(&you, &pt(2, 0)), 10);
}

#[test]
fn scared_and_defensive_moves_pick_the_most_area() {
    let (board, you) = walled(vec![]);
    assert_eq!(board.scared_move(&you), Some(Move::Right));
    assert_eq!(board.defensive_move(&you), Some(Move::Right));
    let me = snake(1, vec![pt(1, 1)]);
    let open = Board { height: 3, width: 3, snakes: vec![me.duplicate()], food: vec![], hazards: vec![] };
    assert_eq!(open.scared_move(&me), Some(Move::Right));
    let boxed = Board {
        height: 3,
        width: 3,
        snakes: vec![snake(1, vec![pt(0, 0), pt(0, 1)]), snake(2, vec![pt(2, 1), pt(1, 1), pt(1, 0), pt(2, 0)])],
        food: vec![],
        hazards: vec![],
    };
    let boxed_you = snake(1, vec![pt(0, 0), pt(0, 1)]);
    assert_eq!(boxed.scared_move(&boxed_you), None);
}
