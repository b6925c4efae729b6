use hematite::{
    Board, Engine, EngineConfig, Game, GameState, GameType, MCTSConfig, MonteCarlo, Move, Node, NodeState, Point,
    Ruleset, RulesetRoyaleSettings, RulesetSettings, RulesetSquadSettings, Simulation, Snake, SnakeID,
};

fn pt(x: i32, y: i32) -> Point {
    Point::new(x, y)
}

fn id(n: u8) -> SnakeID {
    SnakeID::new([n; 24])
}

fn snake(n: u8, body: Vec<Point>) -> Snake {
    let length = body.len() as u32;
    Snake { id: id(n), health: 90, head: body[0], body, length, squad: None }
}

fn world(snakes: Vec<Snake>) -> GameState {
    let you = snakes[0].duplicate();
    GameState {
        game: Game {
            id: "session".to_string(),
            ruleset: Ruleset {
                name: GameType::Standard,
                settings: RulesetSettings {
                    food_spawn_chance: 15,
                    minimum_food: 1,
                    hazard_damage_per_turn: 14,
                    royale: RulesetRoyaleSettings { shrink_every_n_turns: 25 },
                    squad: RulesetSquadSettings {
                        allow_body_collisions: false,
                        shared_elimination: false,
                        shared_health: false,
                        shared_length: false,
                    },
                },
            },
            timeout: 500,
        },
        turn: 3,
        board: Board { height: 11, width: 11, snakes, food: vec![pt(5, 5)], hazards: vec![] },
        you,
    }
}

fn cornered() -> GameState {
    world(vec![snake(1, vec![pt(0, 0), pt(0, 1), pt(1, 1)]), snake(2, vec![pt(8, 8), pt(8, 9), pt(8, 10)])])
}

fn leaf(m: Move, visits: u32, wins: u32) -> Node {
    Node { move_: m, visits, wins, state: NodeState::Leaf, children: vec![] }
}

#[test]
fn ucb1_exact_values() {
    assert_eq!(leaf(Move::Up, 2, 1).ucb1(4), 1677);
    assert_eq!(leaf(Move::Up, 1, 0).ucb1(1), 0);
    assert_eq!(leaf(Move::Up, 4, 4).ucb1(1), 1000);
    assert_eq!(leaf(Move::Up, 10, 3).ucb1(1000), 1416);
}

#[test]
fn ucb1_grows_with_parent_visits_and_shrinks_with_visits() {
    let n = leaf(Move::Up, 8, 2);
    let mut last = 0;
    for p in [1u32, 2, 4, 16, 1024, 1 << 20] {
        let s = n.ucb1(p);
        assert!(s > last || p == 1);
        last = s;
    }
    let mut last = u64::MAX;
    for v in [2u32, 4, 8, 64, 1 << 16] {
        let s = leaf(Move::Up, v, 2).ucb1(64);
        assert!(s < last);
        last = s;
    }
    assert_eq!(leaf(Move::Up, 10_000_000, 2).ucb1(64), 0);
}

#[test]
fn best_child_takes_highest_score() {
    let mut root = Node::empty();
    root.visits = 30;
    root.state = NodeState::Expanded;
    root.children = vec![leaf(Move::Up, 10, 2), leaf(Move::Down, 10, 7), leaf(Move::Left, 10, 7)];
    assert_eq!(root.best_child(30), Some(1));
    assert_eq!(Node::new(Move::Left).best_child(3), None);
}

#[test]
fn nodes_report_their_state() {
    let n = Node::new(Move::Right);
    assert!(n.is_leaf());
    assert!(!n.is_fully_expanded());
    assert_eq!(n.move_, Move::Right);
    let mut root = Node::empty();
    root.children = vec![leaf(Move::Up, 1, 0), leaf(Move::Left, 2, 1)];
    root.children[1].children = vec![leaf(Move::Down, 1, 1)];
    assert_eq!(root.get_child(&[Move::Left, Move::Down]).map(|c| c.wins), Some(1));
    assert_eq!(root.get_child(&[]).map(|c| c.children.len()), Some(2));
}

#[test]
fn single_legal_move_is_chosen() {
    for rounds in [1u32, 2, 10] {
        let mut tree = MonteCarlo::new(cornered(), MCTSConfig { games_per_search: 3, max_depth: 30 });
        tree.search(rounds);
        assert_eq!(tree.best_action(), Some(Move::Right));
        assert!(tree.visits() >= 3);
        assert!(tree.wins() <= tree.visits());
    }
}

#[test]
fn no_search_no_action() {
    let tree = MonteCarlo::new(cornered(), MCTSConfig::default());
    assert_eq!(tree.best_action(), None);
    assert_eq!(tree.visits(), 0);
    assert_eq!(tree.fallback_move(7), Move::Right);
}

#[test]
fn search_builds_children_for_allowed_moves() {
    let state = world(vec![snake(1, vec![pt(5, 5), pt(5, 4), pt(5, 3)]), snake(2, vec![pt(1, 9), pt(1, 8), pt(1, 7)])]);
    let mut tree = MonteCarlo::new(state, MCTSConfig { games_per_search: 2, max_depth: 20 });
    tree.search(20);
    let best = tree.best_action().unwrap();
    assert!(best != Move::Down);
    assert_eq!(tree.visits(), 40);
}

#[test]
fn parallel_rollouts_match_sequential_ones() {
    let lone = world(vec![snake(1, vec![pt(3, 3), pt(3, 2)])]);
    let sim = Simulation::new(lone);
    let config = MCTSConfig { games_per_search: 16, max_depth: 10 };
    let mut node = Node::new(Move::Up);
    let parallel = node.simulate(&config, sim.duplicate());
    let mut sequential = 0;
    for _ in 0..16 {
        sequential += sim.rollout_wins(10);
    }
    assert_eq!(parallel, 16);
    assert_eq!(parallel, sequential);
    assert_eq!(node.visits, 16);
    assert_eq!(node.wins, 16);
}

#[test]
fn engine_moves_out_of_the_corner() {
    let config = EngineConfig { hungry_moves: 50, search_iterations: 5, mcts: MCTSConfig { games_per_search: 2, max_depth: 20 } };
    let mut engine = Engine::new(config, cornered());
    engine.update(cornered());
    assert!(engine.is_hungry());
    assert_eq!(engine.get_move(), Move::Right);
    assert_eq!(engine.random_move(), Move::Right);
}

#[test]
fn default_configuration() {
    let c = EngineConfig::default();
    assert_eq!(c.hungry_moves, 50);
    assert_eq!(c.mcts.games_per_search, 5);
    assert_eq!(c.mcts.max_depth, 100);
}

#[test]
fn rollouts_of_a_lost_game_win_nothing() {
    let mut state = world(vec![snake(2, vec![pt(3, 3), pt(3, 2)])]);
    state.you = snake(1, vec![pt(7, 7), pt(7, 6)]);
    let sim = Simulation::new(state);
    assert!(sim.is_over());
    assert!(!sim.did_win());
    let mut node = Node::new(Move::Left);
    let wins = node.simulate(&MCTSConfig { games_per_search: 8, max_depth: 10 }, sim);
    assert_eq!(wins, 0);
    assert_eq!(node.visits, 8);
    assert_eq!(node.wins, 0);
}

#[test]
fn fallback_stays_on_the_board() {
    let you = snake(1, vec![pt(0, 0), pt(0, 1), pt(1, 1)]);
    let other = snake(2, vec![pt(2, 2), pt(2, 1), pt(2, 0), pt(1, 0), pt(1, -1)]);
    let tree = MonteCarlo::new(world(vec![you, other]), MCTSConfig::default());
    assert_eq!(tree.fallback_move(0), Move::Up);
    assert_eq!(tree.fallback_move(1), Move::Right);
    assert_eq!(tree.fallback_move(2), Move::Up);
}

#[test]
fn search_counts_every_round() {
    let state = world(vec![snake(1, vec![pt(5, 5), pt(5, 4), pt(5, 3)]), snake(2, vec![pt(1, 9), pt(1, 8), pt(1, 7)])]);
    let mut tree = MonteCarlo::new(state, MCTSConfig { games_per_search: 3, max_depth: 15 });
    tree.search(7);
    assert_eq!(tree.visits(), 21);
    tree.search(2);
    assert_eq!(tree.visits(), 27);
}
