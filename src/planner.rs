use crate::board::{on_board, GameState};
use crate::config::{EngineConfig, MCTSConfig};
use crate::moves::Move;
use crate::node::{expansion, Node};
use crate::random::random_below;
use crate::simulation::{admissible, initial, SimView, Simulation};
use vstd::prelude::*;

verus! {

/// Child `i` of `root` has been visited and its move is among `allowed`.
pub open spec fn eligible(root: Node, allowed: Seq<Move>, i: int) -> bool {
    &&& 0 <= i < root.children@.len()
    &&& root.children@[i].visits > 0
    &&& allowed.contains(root.children@[i].move_)
}

/// `a` has a higher win ratio than `b`, or the same ratio and more visits.
pub open spec fn better(a: Node, b: Node) -> bool {
    let x = a.wins * b.visits;
    let y = b.wins * a.visits;
    x > y || (x == y && a.visits > b.visits)
}

/// `r` is a best action of `root` among `allowed`: none exactly when no eligible child
/// exists, else the move of an eligible child that no eligible child beats.
pub open spec fn is_best_action(root: Node, allowed: Seq<Move>, r: Option<Move>) -> bool {
    &&& r.is_none() <==> !exists|i: int| eligible(root, allowed, i)
    &&& r matches Some(m) ==> exists|i: int|
        #![trigger root.children@[i]]
        eligible(root, allowed, i) && root.children@[i].move_ == m && forall|j: int|
            eligible(root, allowed, j) ==> !better(root.children@[j], root.children@[i])
}

/// With exactly one legal move for the controlled agent, once the root has a visited child
/// for it, the best action is that move.
pub proof fn lemma_single_legal_move(root: Node, allowed: Seq<Move>, m: Move, r: Option<Move>)
    requires
        allowed == seq![m],
        is_best_action(root, allowed, r),
        exists|i: int| 0 <= i < root.children@.len() && root.children@[i].visits > 0 && #[trigger] root.children@[i].move_ == m,
    ensures
        r == Some(m),
{
    let i = choose|i: int| 0 <= i < root.children@.len() && root.children@[i].visits > 0 && #[trigger] root.children@[i].move_ == m;
    assert(allowed[0] == m);
    assert(eligible(root, allowed, i));
    if let Some(x) = r {
        let k = choose|k: int|
            #![trigger root.children@[k]]
            eligible(root, allowed, k) && root.children@[k].move_ == x && forall|j: int|
                eligible(root, allowed, j) ==> !better(root.children@[j], root.children@[k]);
        let c = root.children@[k].move_;
        assert(allowed.contains(c));
        let q = choose|q: int| 0 <= q < allowed.len() && allowed[q] == c;
        assert(q == 0);
    }
}

/// The root visits after `n` rounds of search from `v` visits, `g` rollouts per round: a
/// round that would take the count past `u32::MAX` is skipped.
pub open spec fn after_rounds(v: int, g: int, n: nat) -> int
    decreases n,
{
    if n == 0 {
        v
    } else {
        let w = after_rounds(v, g, (n - 1) as nat);
        if w + g <= u32::MAX {
            w + g
        } else {
            w
        }
    }
}

/// When all `n` rounds fit, they add `n * g` visits.
pub proof fn lemma_after_rounds_fit(v: int, g: int, n: nat)
    requires
        v >= 0,
        g >= 0,
        v + n * g <= u32::MAX,
    ensures
        after_rounds(v, g, n) == v + n * g,
    decreases n,
{
    if n > 0 {
        let m = (n - 1) as nat;
        assert(m * g + g == n * g && m * g <= n * g) by (nonlinear_arith)
            requires
                m == n - 1,
                g >= 0,
        ;
        lemma_after_rounds_fit(v, g, m);
        assert(after_rounds(v, g, m) + g <= u32::MAX);
        assert(after_rounds(v, g, n) == after_rounds(v, g, m) + g);
    } else {
        assert(n * g == 0) by (nonlinear_arith)
            requires
                n == 0,
        ;
    }
}

/// The Monte-Carlo search tree over a simulation of the current snapshot.
#[derive(Debug)]
pub struct MonteCarlo {
    config: MCTSConfig,
    state: Simulation,
    root: Node,
}

impl MonteCarlo {
    pub closed spec fn tree(&self) -> Node {
        self.root
    }

    pub closed spec fn sim(&self) -> SimView {
        self.state@
    }

    pub closed spec fn cfg(&self) -> MCTSConfig {
        self.config
    }

    pub open spec fn wf(&self) -> bool {
        self.tree().wf() && self.sim().wf()
    }

    /// The tree is a single unvisited root.
    pub open spec fn fresh(&self) -> bool {
        &&& self.tree().visits == 0
        &&& self.tree().wins == 0
        &&& self.tree().children@.len() == 0
    }

    /// A fresh tree over the snapshot `state`.
    pub fn new(state: GameState, config: MCTSConfig) -> (r: MonteCarlo)
        requires
            admissible(&state),
        ensures
            r.wf(),
            r.fresh(),
            r.sim() == initial(&state),
            r.cfg() == config,
    {
        MonteCarlo { state: Simulation::new(state), root: Node::empty(), config }
    }

    /// Replaces the simulation by one of `state` and resets the tree.
    pub fn update(&mut self, state: GameState)
        requires
            admissible(&state),
        ensures
            final(self).wf(),
            final(self).fresh(),
            final(self).sim() == initial(&state),
            final(self).cfg() == old(self).cfg(),
    {
        self.state = Simulation::new(state);
        self.root = Node::empty();
    }

    /// Runs up to `iterations` rounds of search; a round that would overflow the visit
    /// counter is skipped. From a fresh tree, with at least one round and one rollout per
    /// expansion, the root gets one child per allowed move and its first child is visited.
    pub fn search(&mut self, iterations: u32)
        requires
            old(self).wf(),
        ensures
            final(self).wf(),
            final(self).sim() == old(self).sim(),
            final(self).cfg() == old(self).cfg(),
            old(self).fresh() && iterations > 0 && old(self).cfg().games_per_search > 0 ==> {
                &&& final(self).tree().child_moves() == expansion(old(self).sim().allowed())
                &&& final(self).tree().children@[0].visits > 0
            },
            final(self).tree().visits == after_rounds(
                old(self).tree().visits as int,
                old(self).cfg().games_per_search as int,
                iterations as nat,
            ),
            old(self).tree().visits + iterations * old(self).cfg().games_per_search <= u32::MAX
                ==> final(self).tree().visits == old(self).tree().visits + iterations * old(self).cfg().games_per_search,
    {
        let ghost start = self.root;
        let mut k: u32 = 0;
        while k < iterations
            invariant
                self.wf(),
                self.sim() == old(self).sim(),
                self.cfg() == old(self).cfg(),
                k <= iterations,
                k == 0 ==> self.root == start,
                start == old(self).tree(),
                self.tree().visits == after_rounds(
                    old(self).tree().visits as int,
                    old(self).cfg().games_per_search as int,
                    k as nat,
                ),
                k > 0 && old(self).fresh() && old(self).cfg().games_per_search > 0 ==> {
                    &&& self.tree().child_moves() == expansion(old(self).sim().allowed())
                    &&& self.tree().children@[0].visits > 0
                },
            decreases iterations - k,
        {
            let ghost before = self.root;
            let ghost fresh_start = old(self).fresh() && old(self).cfg().games_per_search > 0;
            if self.root.visits <= u32::MAX - self.config.games_per_search {
                self.run_round();
                proof {
                    assert(before.child_moves().len() == before.children@.len());
                    assert(self.tree().child_moves().len() == self.tree().children@.len());
                    if before.children@.len() > 0 {
                        assert(self.tree().children@[0].visits >= before.children@[0].visits);
                    }
                }
            }
            proof {
                if k == 0 && fresh_start {
                    assert(before == start);
                    assert(before.visits == 0);
                    assert(before.children@.len() == 0);
                    assert(self.tree().child_moves() == expansion(old(self).sim().allowed()));
                    assert(self.tree().children@[0].visits > 0);
                }
            }
            assert(after_rounds(old(self).tree().visits as int, old(self).cfg().games_per_search as int, (k + 1) as nat)
                == self.tree().visits);
            k += 1;
        }
        proof {
            if old(self).tree().visits + iterations * old(self).cfg().games_per_search <= u32::MAX {
                lemma_after_rounds_fit(
                    old(self).tree().visits as int,
                    old(self).cfg().games_per_search as int,
                    iterations as nat,
                );
            }
        }
    }

    /// One round of search on a copy of the simulation.
    fn run_round(&mut self)
        requires
            old(self).wf(),
            old(self).tree().visits + old(self).cfg().games_per_search <= u32::MAX,
        ensures
            final(self).wf(),
            final(self).sim() == old(self).sim(),
            final(self).cfg() == old(self).cfg(),
            old(self).tree().children@.len() > 0 ==> final(self).tree().child_moves() == old(self).tree().child_moves(),
            forall|i: int|
                0 <= i < old(self).tree().children@.len() ==> (#[trigger] final(self).tree().children@[i]).visits
                    >= old(self).tree().children@[i].visits,
            old(self).tree().children@.len() == 0 ==> {
                &&& final(self).tree().child_moves() == expansion(old(self).sim().allowed())
                &&& final(self).tree().children@[0].visits == old(self).cfg().games_per_search
            },
            final(self).tree().visits == old(self).tree().visits + old(self).cfg().games_per_search,
    {
        let simulation = self.state.duplicate();
        self.root.select(&self.config, simulation, true);
    }

    /// Rollouts won through the root.
    pub fn wins(&self) -> (r: u32)
        ensures
            r == self.tree().wins,
    {
        self.root.wins
    }

    /// Rollouts run through the root.
    pub fn visits(&self) -> (r: u32)
        ensures
            r == self.tree().visits,
    {
        self.root.visits
    }

    /// The visited root child with the best win ratio (then the most visits, then the
    /// first) among the moves the controlled agent may make now; `None` when there is none.
    pub fn best_action(&self) -> (r: Option<Move>)
        requires
            self.wf(),
        ensures
            is_best_action(self.tree(), self.sim().allowed(), r),
    {
        let allowed = self.state.allowed_moves();
        let ghost al = allowed@;
        let kids = &self.root.children;
        let mut best: Option<usize> = None;
        let mut i: usize = 0;
        while i < kids.len()
            invariant
                al == self.sim().allowed(),
                allowed@ == al,
                kids@ == self.tree().children@,
                i <= kids@.len(),
                best matches Some(b) ==> b < i && eligible(self.tree(), al, b as int) && forall|j: int|
                    0 <= j < i && eligible(self.tree(), al, j) ==> !better(kids@[j], kids@[b as int]),
                best.is_none() ==> forall|j: int| 0 <= j < i ==> !eligible(self.tree(), al, j),
            decreases kids@.len() - i,
        {
            let c = &kids[i];
            let mut ok = false;
            if c.visits > 0 {
                let mut d: usize = 0;
                while d < allowed.len()
                    invariant
                        d <= allowed@.len(),
                        ok <==> exists|q: int| 0 <= q < d && allowed@[q] == c.move_,
                    decreases allowed@.len() - d,
                {
                    if allowed[d] == c.move_ {
                        ok = true;
                    }
                    d += 1;
                }
            }
            assert(ok == eligible(self.tree(), al, i as int));
            if ok {
                match best {
                    None => {
                        best = Some(i);
                    },
                    Some(b) => {
                        let (cw, cv, bw, bv) = (c.wins as u64, c.visits as u64, kids[b].wins as u64, kids[b].visits as u64);
                        assert(cw * bv <= 0xffff_ffff * 0xffff_ffff && bw * cv <= 0xffff_ffff * 0xffff_ffff) by (nonlinear_arith)
                            requires
                                cw <= 0xffff_ffff,
                                cv <= 0xffff_ffff,
                                bw <= 0xffff_ffff,
                                bv <= 0xffff_ffff,
                        ;
                        let x = cw * bv;
                        let y = bw * cv;
                        if x > y || (x == y && c.visits > kids[b].visits) {
                            best = Some(i);
                            proof {
                                assert forall|j: int|
                                    0 <= j < i + 1 && eligible(self.tree(), al, j) implies !better(
                                    kids@[j],
                                    kids@[i as int],
                                ) by {
                                    if j < i {
                                        lemma_better_transitive(kids@[j], kids@[b as int], kids@[i as int]);
                                    } else {
                                        lemma_better_irreflexive(kids@[i as int]);
                                    }
                                }
                            }
                        }
                    },
                }
            }
            i += 1;
        }
        match best {
            Some(b) => Some(kids[b].move_),
            None => None,
        }
    }
}

proof fn lemma_better_irreflexive(a: Node)
    ensures
        !better(a, a),
{
}

/// When `a` does not beat `b` and `c` beats `b`, `a` does not beat `c`.
proof fn lemma_better_transitive(a: Node, b: Node, c: Node)
    requires
        !better(a, b),
        better(c, b),
        a.visits > 0,
        b.visits > 0,
        c.visits > 0,
    ensures
        !better(a, c),
{
    let (aw, av, bw, bv, cw, cv) = (a.wins as int, a.visits as int, b.wins as int, b.visits as int, c.wins as int, c.visits as int);
    assert(aw * bv <= bw * av);
    assert(cw * bv >= bw * cv);
    assert(aw * cv <= cw * av) by (nonlinear_arith)
        requires
            aw * bv <= bw * av,
            cw * bv >= bw * cv,
            av > 0,
            bv > 0,
            cv > 0,
            aw >= 0,
            bw >= 0,
            cw >= 0,
    ;
    if aw * cv == cw * av {
        assert(aw * bv == bw * av && cw * bv == bw * cv) by (nonlinear_arith)
            requires
                aw * bv <= bw * av,
                cw * bv >= bw * cv,
                aw * cv == cw * av,
                av > 0,
                bv > 0,
                cv > 0,
        ;
    }
}

impl MonteCarlo {
    /// The safety-net move for the random value `pick`: one of the moves the controlled agent
    /// may make; when there is none, one that keeps its head on the board; failing that,
    /// any move.
    pub fn fallback_move(&self, pick: u32) -> (r: Move)
        requires
            self.wf(),
        ensures
            self.sim().allowed().len() > 0 ==> r == self.sim().allowed()[pick as int % self.sim().allowed().len() as int],
            self.sim().allowed().len() == 0 && self.sim().on_board_moves().len() > 0 ==> r
                == self.sim().on_board_moves()[pick as int % self.sim().on_board_moves().len() as int],
            self.sim().allowed().len() == 0 && self.sim().on_board_moves().len() == 0 ==> r
                == Move::all_spec()[pick as int % 4],
    {
        let allowed = self.state.allowed_moves();
        if allowed.len() > 0 {
            return allowed[(pick as usize) % allowed.len()];
        }
        let on_board = self.state.on_board_moves();
        if on_board.len() > 0 {
            on_board[(pick as usize) % on_board.len()]
        } else {
            let all = Move::all();
            all[(pick % 4) as usize]
        }
    }
}

/// The strategy the engine follows on a turn.
#[derive(Clone, Copy, Debug, PartialEq, Eq, Structural)]
pub enum Mode {
    /// Early in the game or low on health.
    Hungry,
    /// Otherwise.
    Searching,
}

/// The decision engine of one game session.
#[derive(Debug)]
pub struct Engine {
    config: EngineConfig,
    mode: Mode,
    turn: u32,
    health: i32,
    tree: MonteCarlo,
}

impl Engine {
    pub closed spec fn planner(&self) -> MonteCarlo {
        self.tree
    }

    pub closed spec fn mode_spec(&self) -> Mode {
        self.mode
    }

    pub closed spec fn config_spec(&self) -> EngineConfig {
        self.config
    }

    pub closed spec fn hungry_spec(&self) -> bool {
        self.turn <= self.config.hungry_moves || self.health < 50
    }

    pub open spec fn wf(&self) -> bool {
        &&& self.planner().wf()
        &&& self.planner().cfg() == self.config_spec().mcts
    }

    /// An engine for the snapshot `initial_state`.
    pub fn new(config: EngineConfig, initial_state: GameState) -> (r: Engine)
        requires
            admissible(&initial_state),
        ensures
            r.wf(),
            r.planner().sim() == initial(&initial_state),
            r.planner().fresh(),
            r.mode_spec() == Mode::Hungry,
            r.config_spec() == config,
    {
        let turn = initial_state.turn;
        let health = initial_state.you.health;
        Engine {
            config,
            mode: Mode::Hungry,
            turn,
            health,
            tree: MonteCarlo::new(initial_state, config.mcts),
        }
    }

    /// Takes a new snapshot: updates the mode and resets the search tree on it.
    pub fn update(&mut self, state: GameState)
        requires
            old(self).wf(),
            admissible(&state),
        ensures
            final(self).wf(),
            final(self).planner().sim() == initial(&state),
            final(self).planner().fresh(),
            final(self).config_spec() == old(self).config_spec(),
            final(self).mode_spec() == if final(self).hungry_spec() {
                Mode::Hungry
            } else {
                Mode::Searching
            },
    {
        self.turn = state.turn;
        self.health = state.you.health;
        self.update_mode();
        self.tree.update(state);
    }

    /// Whether the agent should seek food: early in the game, or below half health.
    pub fn is_hungry(&self) -> (r: bool)
        ensures
            r == self.hungry_spec(),
    {
        self.turn <= self.config.hungry_moves || self.health < 50
    }

    /// Chooses the mode for the current snapshot.
    pub fn update_mode(&mut self)
        ensures
            final(self).mode_spec() == if old(self).hungry_spec() {
                Mode::Hungry
            } else {
                Mode::Searching
            },
            final(self).planner() == old(self).planner(),
            final(self).config_spec() == old(self).config_spec(),
            final(self).hungry_spec() == old(self).hungry_spec(),
    {
        self.mode = if self.is_hungry() {
            Mode::Hungry
        } else {
            Mode::Searching
        };
    }

    /// Searches for the configured number of rounds and returns the best action found.
    pub fn searching_move(&mut self) -> (r: Option<Move>)
        requires
            old(self).wf(),
        ensures
            final(self).wf(),
            final(self).planner().sim() == old(self).planner().sim(),
            is_best_action(final(self).planner().tree(), final(self).planner().sim().allowed(), r),
            final(self).config_spec() == old(self).config_spec(),
            old(self).planner().fresh() && old(self).config_spec().search_iterations > 0
                && old(self).config_spec().mcts.games_per_search > 0 ==> {
                &&& final(self).planner().tree().child_moves() == expansion(old(self).planner().sim().allowed())
                &&& final(self).planner().tree().children@[0].visits > 0
                &&& old(self).planner().sim().allowed().len() > 0 ==> r.is_some()
                &&& old(self).planner().sim().allowed().len() == 1 ==> r == Some(
                    old(self).planner().sim().allowed()[0],
                )
            },
    {
        self.tree.search(self.config.search_iterations);
        let r = self.tree.best_action();
        proof {
            let root = self.planner().tree();
            let al = self.planner().sim().allowed();
            if old(self).planner().fresh() && old(self).config_spec().search_iterations > 0
                && old(self).config_spec().mcts.games_per_search > 0 && al.len() > 0 {
                assert(root.child_moves()[0] == al[0]);
                assert(al.contains(root.children@[0].move_));
                assert(eligible(root, al, 0));
                if al.len() == 1 {
                    assert(al =~= seq![al[0]]);
                    assert(root.children@[0].move_ == al[0]);
                    lemma_single_legal_move(root, al, al[0], r);
                }
            }
        }
        r
    }

    /// A random safety-net move (see `MonteCarlo::fallback_move`).
    pub fn random_move(&self) -> (r: Move)
        requires
            self.wf(),
        ensures
            self.planner().sim().allowed().len() > 0 ==> self.planner().sim().allowed().contains(r),
            self.planner().sim().allowed().len() == 0 && self.planner().sim().on_board_moves().len() > 0
                ==> self.planner().sim().on_board_moves().contains(r),
    {
        let pick = random_below(12);
        self.tree.fallback_move(pick)
    }

    /// The move for this turn: the best action of the search, or else the safety-net move.
    pub fn get_move(&mut self) -> (r: Move)
        requires
            old(self).wf(),
        ensures
            final(self).wf(),
            final(self).planner().sim() == old(self).planner().sim(),
            final(self).config_spec() == old(self).config_spec(),
            (exists|i: int| eligible(final(self).planner().tree(), final(self).planner().sim().allowed(), i))
                ==> is_best_action(final(self).planner().tree(), final(self).planner().sim().allowed(), Some(r)),
            final(self).planner().sim().allowed().len() > 0 ==> final(self).planner().sim().allowed().contains(r),
    {
        let chosen = match self.mode {
            Mode::Hungry => self.searching_move(),
            Mode::Searching => self.searching_move(),
        };
        match chosen {
            Some(m) => {
                proof {
                    let al = self.planner().sim().allowed();
                    let root = self.planner().tree();
                    let i = choose|i: int|
                        #![trigger root.children@[i]]
                        eligible(root, al, i) && root.children@[i].move_ == m && forall|j: int|
                            eligible(root, al, j) ==> !better(root.children@[j], root.children@[i]);
                    assert(al.contains(m));
                }
                m
            },
            None => self.random_move(),
        }
    }
}

} // verus!
