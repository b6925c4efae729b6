use hematite::{Board, Coord, HeapItem, Move, MoveSet, Point, Snake, SnakeID};

fn pt(x: i32, y: i32) -> Point {
    Point::new(x, y)
}

fn snake(n: u8, body: Vec<Point>, length: u32) -> Snake {
    Snake { id: SnakeID::new([n; 24]), health: 100, head: body[0], body, length, squad: None }
}

#[test]
fn neighbors_are_up_down_left_right() {
    assert_eq!(pt(2, 3).neighbors(), vec![pt(2, 4), pt(2, 2), pt(1, 3), pt(3, 3)]);
    let c: Coord = pt(0, 0);
    assert_eq!(c.ortho_neighbors(), vec![pt(0, 1), pt(0, -1), pt(-1, 0), pt(1, 0)]);
}

#[test]
fn manhattan_distances() {
    assert_eq!(pt(1, 1).distance(&pt(4, -3)), 7);
    assert_eq!(pt(-2, 5).manhattan_distance(&pt(-2, 5)), 0);
    assert_eq!(pt(0, 0).closest_distance(&[pt(5, 5), pt(1, 2), pt(-3, 0)]), Some(3));
    assert_eq!(pt(0, 0).closest_distance(&[]), None);
}

#[test]
fn moves_between_points() {
    let o = pt(3, 3);
    assert_eq!(Move::from_points(&o, &pt(3, 4)), Some(Move::Up));
    assert_eq!(Move::from_points(&o, &pt(3, 2)), Some(Move::Down));
    assert_eq!(Move::from_coords(&o, &pt(2, 3)), Some(Move::Left));
    assert_eq!(Move::from_coords(&o, &pt(4, 3)), Some(Move::Right));
    assert_eq!(Move::from_points(&o, &pt(4, 4)), None);
    assert_eq!(Move::from_points(&o, &o), None);
    for m in Move::all() {
        assert_eq!(Move::from_points(&o, &m.to_point(&o)), Some(m));
        assert_eq!(m.to_coord(&o), m.to_point(&o));
    }
}

#[test]
fn move_names() {
    assert_eq!(Move::all(), [Move::Up, Move::Down, Move::Left, Move::Right]);
    assert_eq!(Move::Up.as_str(), "up");
    assert_eq!(Move::Right.as_str(), "right");
    assert_eq!(Move::from_name("left"), Some(Move::Left));
    assert_eq!(Move::from_name("down"), Some(Move::Down));
    assert_eq!(Move::from_name("north"), None);
}

#[test]
fn board_bounds_and_neighbors() {
    let board = Board { height: 3, width: 4, snakes: vec![], food: vec![], hazards: vec![] };
    assert!(board.is_on_board(&pt(0, 0)));
    assert!(board.is_on_board(&pt(3, 2)));
    assert!(!board.is_on_board(&pt(4, 0)));
    assert!(!board.is_on_board(&pt(0, 3)));
    assert!(!board.is_on_board(&pt(-1, 1)));
    assert_eq!(board.neighbors(&pt(0, 0)), vec![pt(0, 1), pt(1, 0)]);
    assert_eq!(board.neighbors(&pt(3, 2)), vec![pt(3, 1), pt(2, 2)]);
}

#[test]
fn board_other_snakes() {
    let board = Board {
        height: 5,
        width: 5,
        snakes: vec![snake(1, vec![pt(0, 0)], 1), snake(2, vec![pt(2, 2)], 1), snake(3, vec![pt(4, 4)], 1)],
        food: vec![],
        hazards: vec![],
    };
    let others = board.other_snakes(&SnakeID::new([2; 24]));
    let ids: Vec<SnakeID> = others.iter().map(|s| s.id).collect();
    assert_eq!(ids, vec![SnakeID::new([1; 24]), SnakeID::new([3; 24])]);
}

#[test]
fn snake_tail_and_previous_move() {
    let s = snake(1, vec![pt(2, 2), pt(1, 2), pt(1, 1)], 3);
    assert_eq!(s.tail(), pt(1, 1));
    assert_eq!(s.previous_move(), Move::Right);
    let t = snake(2, vec![pt(5, 5), pt(5, 6)], 2);
    assert_eq!(t.previous_move(), Move::Down);
}

#[test]
fn snake_ids_from_bytes() {
    let bytes = b"Mgf9YfdBvqk4JMmCYtSWFxx9";
    let id = SnakeID::from_bytes(bytes).unwrap();
    assert_eq!(id.id, *bytes);
    assert_eq!(SnakeID::from_bytes(b"short"), None);
    assert!(id == SnakeID::new(*bytes));
    assert!(id != SnakeID::new([0; 24]));
}

#[test]
fn moveset_invalidation() {
    let mut set = MoveSet::new();
    assert!(set.contains(&Move::Up));
    set.invalidate(&Move::Up);
    assert!(!set.contains(&Move::Up));
    assert!(set.contains(&Move::Left));
    set.invalidate_others_many(&[Move::Left, Move::Up]);
    assert_eq!(
        set.entries(),
        [(Move::Up, false), (Move::Down, false), (Move::Left, true), (Move::Right, false)]
    );
}

#[test]
fn heap_item_keeps_priority() {
    let item = HeapItem::new(pt(1, 2), -4);
    assert_eq!(item.value, pt(1, 2));
    assert_eq!(item.priority(), -4);
}
