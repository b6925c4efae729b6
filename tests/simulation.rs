use hematite::{
    Board, Game, GameState, GameType, Move, Point, Ruleset, RulesetRoyaleSettings, RulesetSettings,
    RulesetSquadSettings, Simulation, Snake, SnakeID,
};

fn pt(x: i32, y: i32) -> Point {
    Point::new(x, y)
}

fn id(n: u8) -> SnakeID {
    SnakeID::new([n; 24])
}

fn snake(n: u8, health: i32, body: Vec<Point>) -> Snake {
    let length = body.len() as u32;
    Snake { id: id(n), health, head: body[0], body, length, squad: None }
}

fn rules(minimum_food: u32, food_spawn_chance: u32, hazard_damage_per_turn: u32) -> Ruleset {
    Ruleset {
        name: GameType::Standard,
        settings: RulesetSettings {
            food_spawn_chance,
            minimum_food,
            hazard_damage_per_turn,
            royale: RulesetRoyaleSettings { shrink_every_n_turns: 0 },
            squad: RulesetSquadSettings {
                allow_body_collisions: false,
                shared_elimination: false,
                shared_health: false,
                shared_length: false,
            },
        },
    }
}

fn world(size: u32, snakes: Vec<Snake>, food: Vec<Point>, hazards: Vec<Point>, ruleset: Ruleset) -> GameState {
    let you = snakes[0].duplicate();
    GameState {
        game: Game { id: "session".to_string(), ruleset, timeout: 500 },
        turn: 0,
        board: Board { height: size, width: size, snakes, food, hazards },
        you,
    }
}

fn sim(snakes: Vec<Snake>, food: Vec<Point>) -> Simulation {
    let state = world(11, snakes, food, vec![], rules(0, 0, 14));
    assert!(Simulation::accepts(&state));
    Simulation::new(state)
}

fn alive_ids(s: &Simulation) -> Vec<SnakeID> {
    s.snakes().iter().map(|a| a.id).collect()
}

fn dead_ids(s: &Simulation) -> Vec<SnakeID> {
    s.dead_snakes().iter().map(|a| a.id).collect()
}

fn two_far_apart() -> Vec<Snake> {
    vec![snake(1, 90, vec![pt(5, 5), pt(5, 4), pt(5, 3)]), snake(2, 90, vec![pt(1, 9), pt(1, 8), pt(1, 7)])]
}

#[test]
fn step_is_deterministic() {
    let moves = vec![(id(1), Move::Right), (id(2), Move::Up)];
    let mut a = sim(two_far_apart(), vec![pt(6, 5)]);
    let mut b = sim(two_far_apart(), vec![pt(6, 5)]);
    for _ in 0..3 {
        a.step(&moves);
        b.step(&moves);
    }
    assert_eq!(a.turn(), b.turn());
    assert_eq!(a.food(), b.food());
    assert_eq!(alive_ids(&a), alive_ids(&b));
    for (x, y) in a.snakes().iter().zip(b.snakes().iter()) {
        assert_eq!(x.body, y.body);
        assert_eq!(x.health, y.health);
        assert_eq!(x.length, y.length);
    }
}

#[test]
fn eating_grows_on_the_next_tick() {
    let mut s = sim(two_far_apart(), vec![pt(5, 6)]);
    s.step(&vec![(id(1), Move::Up), (id(2), Move::Right)]);
    let a = &s.snakes()[0];
    assert_eq!(a.length, 3);
    assert_eq!(a.body, vec![pt(5, 6), pt(5, 5), pt(5, 4)]);
    assert_eq!(a.health, 100);
    assert!(s.food().is_empty());
    s.step(&vec![(id(1), Move::Up), (id(2), Move::Right)]);
    let a = &s.snakes()[0];
    assert_eq!(a.length, 4);
    assert_eq!(a.body, vec![pt(5, 7), pt(5, 6), pt(5, 5), pt(5, 4)]);
    let b = &s.snakes()[1];
    assert_eq!(b.length, 3);
    assert_eq!(b.body.len(), 3);
    s.step(&vec![(id(1), Move::Up), (id(2), Move::Right)]);
    assert_eq!(s.snakes()[0].length, 4);
    assert_eq!(s.snakes()[0].body.len(), 4);
}

#[test]
fn walls_eliminate_in_every_direction() {
    let cases = [
        (vec![pt(0, 5), pt(1, 5), pt(2, 5)], Move::Left),
        (vec![pt(10, 5), pt(9, 5), pt(8, 5)], Move::Right),
        (vec![pt(5, 0), pt(5, 1), pt(5, 2)], Move::Down),
        (vec![pt(5, 10), pt(5, 9), pt(5, 8)], Move::Up),
    ];
    for (body, m) in cases.iter() {
        let other = snake(2, 90, vec![pt(3, 3), pt(3, 2), pt(3, 1)]);
        let mut s = sim(vec![snake(1, 90, body.clone()), other], vec![]);
        s.step(&vec![(id(1), *m), (id(2), Move::Right)]);
        assert_eq!(alive_ids(&s), vec![id(2)]);
        assert_eq!(dead_ids(&s), vec![id(1)]);
        assert!(s.is_over());
    }
}

#[test]
fn equal_heads_both_die() {
    let a = snake(1, 90, vec![pt(2, 2), pt(1, 2), pt(0, 2)]);
    let b = snake(2, 90, vec![pt(4, 2), pt(5, 2), pt(6, 2)]);
    let mut s = sim(vec![a, b], vec![]);
    s.step(&vec![(id(1), Move::Right), (id(2), Move::Left)]);
    assert!(s.snakes().is_empty());
    assert_eq!(dead_ids(&s), vec![id(1), id(2)]);
}

#[test]
fn shorter_head_dies_longer_survives() {
    let a = snake(1, 90, vec![pt(2, 2), pt(1, 2), pt(0, 2)]);
    let b = snake(2, 90, vec![pt(4, 2), pt(5, 2), pt(6, 2), pt(7, 2)]);
    let mut s = sim(vec![a, b], vec![]);
    s.step(&vec![(id(1), Move::Right), (id(2), Move::Left)]);
    assert_eq!(alive_ids(&s), vec![id(2)]);
    assert_eq!(dead_ids(&s), vec![id(1)]);
    assert_eq!(s.snakes()[0].head, pt(3, 2));
}

fn tail_case(other_body: Vec<Point>, food: Vec<Point>) -> Simulation {
    let tail = *other_body.last().unwrap();
    let mover = snake(1, 90, vec![pt(tail.x - 1, tail.y), pt(tail.x - 2, tail.y), pt(tail.x - 3, tail.y)]);
    let mut s = sim(vec![mover, snake(2, 90, other_body)], food);
    s.step(&vec![(id(1), Move::Right), (id(2), Move::Down)]);
    s
}

#[test]
fn following_a_long_tail_is_safe() {
    let s = tail_case(vec![pt(5, 5), pt(5, 6), pt(5, 7)], vec![]);
    assert_eq!(alive_ids(&s), vec![id(1), id(2)]);
    assert_eq!(s.snakes()[0].head, pt(5, 7));
}

#[test]
fn following_a_short_tail_is_lethal() {
    let s = tail_case(vec![pt(5, 5), pt(5, 6)], vec![]);
    assert_eq!(alive_ids(&s), vec![id(2)]);
    assert_eq!(dead_ids(&s), vec![id(1)]);
}

#[test]
fn following_the_tail_of_an_agent_next_to_food_is_lethal() {
    let s = tail_case(vec![pt(5, 5), pt(5, 6), pt(5, 7)], vec![pt(6, 5)]);
    assert_eq!(alive_ids(&s), vec![id(2)]);
    assert_eq!(dead_ids(&s), vec![id(1)]);
}

#[test]
fn health_trace_over_ten_ticks() {
    let a = snake(1, 50, vec![pt(5, 0), pt(5, 0), pt(5, 0)]);
    let state = world(11, vec![a], vec![pt(5, 3)], vec![pt(5, 5)], rules(0, 0, 15));
    let mut s = Simulation::new(state);
    let mut trace = Vec::new();
    s.step(&vec![(id(1), Move::Up)]);
    trace.push(s.snakes()[0].health);
    for _ in 1..10 {
        s.step(&vec![]);
        trace.push(s.snakes()[0].health);
    }
    assert_eq!(trace, vec![49, 48, 100, 99, 84, 83, 82, 81, 80, 79]);
    assert_eq!(s.snakes()[0].head, pt(5, 10));
    assert_eq!(s.turn(), 10);
}

#[test]
fn starvation_eliminates() {
    let a = snake(1, 1, vec![pt(5, 5), pt(5, 4), pt(5, 3)]);
    let b = snake(2, 90, vec![pt(1, 9), pt(1, 8), pt(1, 7)]);
    let mut s = sim(vec![a, b], vec![]);
    s.step(&vec![(id(1), Move::Up), (id(2), Move::Right)]);
    assert_eq!(dead_ids(&s), vec![id(1)]);
    assert!(s.is_over());
    assert!(!s.did_win());
}

#[test]
fn unknown_agents_are_ignored() {
    let mut s = sim(two_far_apart(), vec![]);
    s.step(&vec![(id(9), Move::Left), (id(1), Move::Left), (id(1), Move::Right)]);
    assert_eq!(s.snakes()[0].head, pt(4, 5));
    assert_eq!(s.snakes()[1].head, pt(1, 10));
}

#[test]
fn food_spawns_on_the_first_free_cell() {
    let a = snake(1, 90, vec![pt(0, 0), pt(1, 0), pt(2, 0)]);
    let state = world(3, vec![a], vec![pt(0, 1)], vec![], rules(3, 0, 14));
    let mut s = Simulation::new(state);
    s.spawn_food_with(99, 0);
    assert_eq!(s.food(), &vec![pt(0, 1), pt(1, 1)]);
    s.spawn_food_with(99, 4);
    assert_eq!(s.food(), &vec![pt(0, 1), pt(1, 1), pt(2, 1)]);
    s.spawn_food_with(0, 0);
    assert_eq!(s.food().len(), 3);
}

#[test]
fn food_spawns_by_chance() {
    let a = snake(1, 90, vec![pt(0, 0), pt(1, 0), pt(2, 0)]);
    let state = world(3, vec![a], vec![], vec![], rules(0, 25, 14));
    let mut s = Simulation::new(state);
    s.spawn_food_with(25, 0);
    assert!(s.food().is_empty());
    s.spawn_food_with(24, 0);
    assert_eq!(s.food(), &vec![pt(0, 1)]);
    s.spawn_food();
    assert!(s.food().len() <= 2);
}

#[test]
fn full_board_gets_no_food() {
    let a = snake(1, 90, vec![pt(0, 0), pt(1, 0)]);
    let state = world(2, vec![a], vec![pt(0, 1), pt(1, 1)], vec![], rules(5, 100, 14));
    let mut s = Simulation::new(state);
    s.spawn_food_with(0, 0);
    assert_eq!(s.food().len(), 2);
}

#[test]
fn snapshots_off_the_board_are_refused() {
    let a = snake(1, 90, vec![pt(11, 0), pt(10, 0)]);
    assert!(!Simulation::accepts(&world(11, vec![a], vec![], vec![], rules(0, 0, 1))));
    let b = Snake { id: id(2), health: 90, head: pt(1, 1), body: vec![pt(1, 2)], length: 1, squad: None };
    assert!(!Simulation::accepts(&world(11, vec![b], vec![], vec![], rules(0, 0, 1))));
}

#[test]
fn legal_moves_avoid_walls_and_bodies() {
    let s = sim(
        vec![snake(1, 90, vec![pt(0, 0), pt(0, 1), pt(1, 1)]), snake(2, 90, vec![pt(8, 8), pt(8, 9), pt(8, 10)])],
        vec![],
    );
    assert_eq!(s.legal_moves(0), vec![Move::Right]);
    assert_eq!(s.allowed_moves(), vec![Move::Right]);
    assert_eq!(s.legal_moves(1), vec![Move::Down, Move::Left, Move::Right]);
}

#[test]
fn a_lone_agent_has_won() {
    let s = sim(vec![snake(1, 90, vec![pt(5, 5), pt(5, 4)])], vec![]);
    assert!(s.is_over());
    assert!(s.did_win());
    assert!(s.run_random_game(10));
    assert_eq!(s.rollout_wins(0), 1);
}

#[test]
fn rollouts_end_within_the_tick_limit() {
    let s = sim(two_far_apart(), vec![]);
    let mut copy = s.duplicate();
    assert!(!s.is_over());
    assert!(!s.run_random_game(0));
    let _ = s.run_random_game(50);
    copy.apply_move(&Move::Left);
    assert_eq!(copy.turn(), 1);
    assert_eq!(copy.snakes()[0].head, pt(4, 5));
}

#[test]
fn certain_food_always_spawns() {
    let a = snake(1, 90, vec![pt(0, 0), pt(1, 0), pt(2, 0)]);
    let state = world(3, vec![a], vec![], vec![], rules(0, 100, 14));
    let mut s = Simulation::new(state);
    for expected in 1..=6usize {
        s.spawn_food();
        assert_eq!(s.food().len(), expected);
        assert!(!s.food()[..expected - 1].contains(&s.food()[expected - 1]));
        assert!(s.food()[expected - 1].y >= 1);
    }
    s.spawn_food();
    assert_eq!(s.food().len(), 6);
}

#[test]
fn snapshots_with_repeated_ids_are_refused() {
    let a = snake(1, 90, vec![pt(1, 1), pt(1, 0)]);
    let b = snake(1, 90, vec![pt(5, 5), pt(5, 4)]);
    assert!(!Simulation::accepts(&world(11, vec![a, b], vec![], vec![], rules(0, 0, 1))));
}
