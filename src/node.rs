use crate::config::MCTSConfig;
use crate::moves::Move;
use crate::simulation::Simulation;
use rayon::prelude::{IntoParallelIterator, ParallelIterator};
use vstd::arithmetic::power2::{lemma2_to64, lemma_pow2_unfold, pow2};
use vstd::arithmetic::div_mod::{
    lemma_basic_div, lemma_div_is_ordered, lemma_div_is_ordered_by_denominator, lemma_div_pos_is_pos,
};
use vstd::prelude::*;

verus! {

/// Fixed-point scale of scores: 1000 stands for 1.
pub const SCALE: u64 = 1000;

/// `floor(log2(n))`, and 0 for `n <= 1`.
pub open spec fn log2_floor(n: int) -> int
    decreases n,
{
    if n <= 1 {
        0
    } else {
        1 + log2_floor(n / 2)
    }
}

/// `ln(n)` in thousandths, from the binary logarithm: `693 * floor(log2(n))`.
pub open spec fn ln_milli(n: int) -> int {
    693 * log2_floor(n)
}

/// `r` is the integer square root of `n`.
pub open spec fn is_isqrt(n: int, r: int) -> bool {
    r >= 0 && r * r <= n < (r + 1) * (r + 1)
}

pub open spec fn isqrt(n: int) -> int {
    choose|r: int| is_isqrt(n, r)
}

/// UCB1 in thousandths: `wins/visits + sqrt(2 ln(parent_visits) / visits)`.
pub open spec fn ucb1_spec(wins: int, visits: int, parent_visits: int) -> int {
    wins * 1000 / visits + isqrt(2000 * ln_milli(parent_visits) / visits)
}

proof fn lemma_log2_below(n: int, k: nat)
    requires
        k >= 1,
        0 <= n < pow2(k),
    ensures
        0 <= log2_floor(n) < k,
    decreases k,
{
    if n > 1 {
        lemma_pow2_unfold(k);
        if k == 1 {
            lemma2_to64();
        } else {
            lemma_log2_below(n / 2, (k - 1) as nat);
        }
    }
}

proof fn lemma_log2_bound(n: int)
    requires
        0 <= n < 0x1_0000_0000,
    ensures
        0 <= log2_floor(n) < 32,
{
    lemma2_to64();
    lemma_log2_below(n, 32);
}

proof fn lemma_log2_nonneg(n: int)
    ensures
        0 <= log2_floor(n),
    decreases n,
{
    if n > 1 {
        lemma_log2_nonneg(n / 2);
    }
}

/// `log2_floor` does not decrease.
pub proof fn lemma_log2_monotone(a: int, b: int)
    requires
        0 <= a <= b,
    ensures
        log2_floor(a) <= log2_floor(b),
    decreases b,
{
    if a > 1 {
        lemma_log2_monotone(a / 2, b / 2);
    } else if b > 1 {
        lemma_log2_nonneg(b / 2);
    }
}

proof fn lemma_isqrt_unique(n: int, r: int)
    requires
        is_isqrt(n, r),
    ensures
        isqrt(n) == r,
{
    let s = isqrt(n);
    assert(is_isqrt(n, s));
    if s < r {
        assert((s + 1) * (s + 1) <= r * r) by (nonlinear_arith)
            requires
                0 <= s < r,
        ;
    } else if s > r {
        assert((r + 1) * (r + 1) <= s * s) by (nonlinear_arith)
            requires
                0 <= r < s,
        ;
    }
}

/// The integer square root does not decrease.
pub proof fn lemma_isqrt_monotone(a: int, b: int, ra: int, rb: int)
    requires
        0 <= a <= b,
        is_isqrt(a, ra),
        is_isqrt(b, rb),
    ensures
        ra <= rb,
{
    if ra > rb {
        assert((rb + 1) * (rb + 1) <= ra * ra) by (nonlinear_arith)
            requires
                0 <= rb < ra,
        ;
    }
}


/// Every non-negative integer has an integer square root.
pub proof fn lemma_isqrt_exists(n: int)
    requires
        n >= 0,
    ensures
        is_isqrt(n, isqrt(n)),
    decreases n,
{
    if n == 0 {
        assert(is_isqrt(0, 0));
    } else {
        lemma_isqrt_exists(n - 1);
        let r = isqrt(n - 1);
        if (r + 1) * (r + 1) <= n {
            assert(n < (r + 2) * (r + 2)) by (nonlinear_arith)
                requires
                    n - 1 < (r + 1) * (r + 1),
                    r >= 0,
            ;
            assert(is_isqrt(n, r + 1));
        } else {
            assert(is_isqrt(n, r));
        }
    }
}

proof fn lemma_isqrt_zero()
    ensures
        isqrt(0) == 0,
{
    assert(is_isqrt(0, 0));
    lemma_isqrt_unique(0, 0);
}

/// For fixed wins and visits, more parent visits never lower the UCB1 score.
pub proof fn lemma_ucb1_parent_monotone(wins: int, visits: int, p1: int, p2: int)
    requires
        wins >= 0,
        visits > 0,
        0 <= p1 <= p2,
    ensures
        ucb1_spec(wins, visits, p1) <= ucb1_spec(wins, visits, p2),
{
    lemma_log2_monotone(p1, p2);
    lemma_log2_nonneg(p1);
    let a = 2000 * ln_milli(p1);
    let b = 2000 * ln_milli(p2);
    lemma_div_is_ordered(a, b, visits);
    lemma_div_pos_is_pos(a, visits);
    lemma_isqrt_exists(a / visits);
    lemma_isqrt_exists(b / visits);
    lemma_isqrt_monotone(a / visits, b / visits, isqrt(a / visits), isqrt(b / visits));
}

/// For fixed wins and parent visits, more visits never raise the UCB1 score.
pub proof fn lemma_ucb1_visits_monotone(wins: int, v1: int, v2: int, parent_visits: int)
    requires
        wins >= 0,
        0 < v1 <= v2,
        parent_visits >= 0,
    ensures
        ucb1_spec(wins, v2, parent_visits) <= ucb1_spec(wins, v1, parent_visits),
{
    lemma_log2_nonneg(parent_visits);
    let e = 2000 * ln_milli(parent_visits);
    lemma_div_is_ordered_by_denominator(wins * 1000, v1, v2);
    lemma_div_is_ordered_by_denominator(e, v1, v2);
    lemma_div_pos_is_pos(e, v2);
    lemma_isqrt_exists(e / v1);
    lemma_isqrt_exists(e / v2);
    lemma_isqrt_monotone(e / v2, e / v1, isqrt(e / v2), isqrt(e / v1));
}

/// Holding wins and parent visits fixed, the UCB1 score falls to zero once the visits
/// exceed both `1000 * wins` and the exploration numerator; so any positive score
/// eventually decreases.
pub proof fn lemma_ucb1_vanishes(wins: int, visits: int, parent_visits: int)
    requires
        wins >= 0,
        parent_visits >= 0,
        visits > wins * 1000,
        visits > 2000 * ln_milli(parent_visits),
    ensures
        ucb1_spec(wins, visits, parent_visits) == 0,
{
    lemma_log2_nonneg(parent_visits);
    lemma_basic_div(wins * 1000, visits);
    lemma_basic_div(2000 * ln_milli(parent_visits), visits);
    lemma_isqrt_zero();
}

/// `floor(log2(n))` for `n >= 1`.
fn log2_of(n: u32) -> (r: u32)
    ensures
        r == log2_floor(n as int),
        r < 32,
{
    proof {
        lemma_log2_bound(n as int);
    }
    let mut m: u32 = n;
    let mut r: u32 = 0;
    while m > 1
        invariant
            log2_floor(n as int) == r + log2_floor(m as int),
            log2_floor(n as int) < 32,
            0 <= log2_floor(m as int),
        decreases m,
    {
        proof {
            lemma_log2_nonneg((m / 2) as int);
        }
        m = m / 2;
        r = r + 1;
    }
    r
}

/// The integer square root of `n`.
fn isqrt_of(n: u64) -> (r: u64)
    ensures
        is_isqrt(n as int, r as int),
        r as int == isqrt(n as int),
        r < 0x1_0000_0000,
{
    let mut lo: u64 = 0;
    let mut hi: u64 = 0x1_0000_0000;
    assert(hi * hi > n) by (nonlinear_arith)
        requires
            hi == 0x1_0000_0000,
            n < 0x1_0000_0000_0000_0000,
    ;
    while hi - lo > 1
        invariant
            lo < hi <= 0x1_0000_0000,
            lo * lo <= n,
            n < hi * hi,
        decreases hi - lo,
    {
        let mid = lo + (hi - lo) / 2;
        assert(mid * mid <= 0x1_0000_0000 * 0x1_0000_0000) by (nonlinear_arith)
            requires
                mid <= 0x1_0000_0000,
        ;
        if mid <= 0xffff_ffff {
            assert(mid * mid <= 0xffff_ffff * 0xffff_ffff) by (nonlinear_arith)
                requires
                    mid <= 0xffff_ffff,
            ;
            if mid * mid <= n {
                lo = mid;
            } else {
                hi = mid;
            }
        } else {
            hi = mid;
        }
    }
    assert(lo + 1 == hi);
    proof {
        lemma_isqrt_unique(n as int, lo as int);
    }
    lo
}

/// UCB1 of a node with `wins` and `visits` under a parent visited `parent_visits` times.
pub fn ucb1_score(wins: u32, visits: u32, parent_visits: u32) -> (r: u64)
    requires
        visits > 0,
    ensures
        r == ucb1_spec(wins as int, visits as int, parent_visits as int),
{
    let l = log2_of(parent_visits);
    let ln: u64 = 693 * l as u64;
    assert(ln <= 22176);
    let exploit: u64 = wins as u64 * SCALE / visits as u64;
    let explore = isqrt_of(2000 * ln / visits as u64);
    assert(exploit <= 0xffff_ffff * 1000) by (nonlinear_arith)
        requires
            exploit == (wins as int) * 1000 / (visits as int),
            visits > 0,
            wins <= 0xffff_ffff,
    ;
    assert(explore <= 0x1_0000_0000);
    exploit + explore
}

/// How far a node has been explored.
#[derive(Clone, Copy, Debug, PartialEq, Eq, Structural)]
pub enum NodeState {
    /// Not yet visited: it has no children.
    Leaf,
    /// Children exist, and some has not been visited yet.
    Visited,
    /// Every child has been visited; descend by UCB1.
    Expanded,
}

/// A node of the search tree: the move that leads to it and its statistics.
#[derive(Debug)]
pub struct Node {
    pub move_: Move,
    pub visits: u32,
    pub wins: u32,
    pub state: NodeState,
    pub children: Vec<Node>,
}

/// The children a node gets for the allowed moves `allowed`: one per move, or a single
/// `Up` child standing for a forced loss when there is none.
pub open spec fn expansion(allowed: Seq<Move>) -> Seq<Move> {
    if allowed.len() > 0 {
        allowed
    } else {
        seq![Move::Up]
    }
}

/// Child `b` of `s` has the highest UCB1 score under `parent_visits`, and is the first such.
pub open spec fn ucb_best(s: Seq<Node>, parent_visits: int, b: int) -> bool {
    &&& 0 <= b < s.len()
    &&& forall|j: int|
        0 <= j < s.len() ==> ucb1_spec(s[j].wins as int, s[j].visits as int, parent_visits) <= ucb1_spec(
            s[b].wins as int,
            s[b].visits as int,
            parent_visits,
        )
    &&& forall|j: int|
        0 <= j < b ==> ucb1_spec(s[j].wins as int, s[j].visits as int, parent_visits) < ucb1_spec(
            s[b].wins as int,
            s[b].visits as int,
            parent_visits,
        )
}

/// Child `i` is the first child of `s` without visits.
pub open spec fn first_unvisited(s: Seq<Node>, i: int) -> bool {
    &&& 0 <= i < s.len()
    &&& s[i].visits == 0
    &&& forall|j: int| 0 <= j < i ==> s[j].visits > 0
}

/// `after` is `before` with `g` more visits and `w` more wins on child `i`, which keeps its
/// move, and every other child unchanged.
pub open spec fn credited(before: Seq<Node>, after: Seq<Node>, i: int, g: int, w: int) -> bool {
    &&& after.len() == before.len()
    &&& 0 <= i < before.len()
    &&& after[i].visits == before[i].visits + g
    &&& after[i].wins == before[i].wins + w
    &&& after[i].move_ == before[i].move_
    &&& forall|j: int| 0 <= j < before.len() && j != i ==> after[j] == before[j]
}

impl Node {
    /// Statistics are consistent, the state matches the children, and every child
    /// has at most as many visits as its parent.
    pub open spec fn wf(self) -> bool
        decreases self,
    {
        &&& self.wins <= self.visits
        &&& (self.state == NodeState::Leaf) == (self.children@.len() == 0)
        &&& self.state == NodeState::Expanded ==> forall|i: int|
            0 <= i < self.children@.len() ==> (#[trigger] self.children@[i]).visits > 0
        &&& self.state == NodeState::Visited ==> exists|i: int|
            0 <= i < self.children@.len() && (#[trigger] self.children@[i]).visits == 0
        &&& forall|i: int|
            0 <= i < self.children@.len() ==> (#[trigger] self.children@[i]).visits <= self.visits
                && self.children@[i].wf()
    }

    /// The moves of the children, in order.
    pub open spec fn child_moves(self) -> Seq<Move> {
        Seq::new(self.children@.len(), |i: int| self.children@[i].move_)
    }

    /// A fresh node for `move_`.
    pub fn new(move_: Move) -> (r: Node)
        ensures
            r.move_ == move_,
            r.visits == 0,
            r.wins == 0,
            r.state == NodeState::Leaf,
            r.children@.len() == 0,
            r.wf(),
    {
        Node { move_, visits: 0, wins: 0, state: NodeState::Leaf, children: Vec::new() }
    }

    /// A fresh root; its move is a placeholder that is never applied.
    pub fn empty() -> (r: Node)
        ensures
            r.visits == 0,
            r.wins == 0,
            r.state == NodeState::Leaf,
            r.children@.len() == 0,
            r.wf(),
    {
        Node::new(Move::Up)
    }

    /// Whether the node has not been expanded yet.
    pub fn is_leaf(&self) -> (r: bool)
        ensures
            r == (self.state == NodeState::Leaf),
    {
        self.state == NodeState::Leaf
    }

    /// Whether every child has been visited.
    pub fn is_fully_expanded(&self) -> (r: bool)
        ensures
            r == (self.state == NodeState::Expanded),
    {
        self.state == NodeState::Expanded
    }

    /// The UCB1 score of this node, in thousandths.
    pub fn ucb1(&self, parent_visits: u32) -> (r: u64)
        requires
            self.visits > 0,
        ensures
            r == ucb1_spec(self.wins as int, self.visits as int, parent_visits as int),
    {
        ucb1_score(self.wins, self.visits, parent_visits)
    }

    /// The index of the child with the highest UCB1 score (the first of equals); `None`
    /// when there is no child.
    pub fn best_child(&self, parent_visits: u32) -> (r: Option<usize>)
        requires
            forall|i: int| 0 <= i < self.children@.len() ==> (#[trigger] self.children@[i]).visits > 0,
        ensures
            r.is_none() <==> self.children@.len() == 0,
            r matches Some(b) ==> ucb_best(self.children@, parent_visits as int, b as int),
    {
        if self.children.len() == 0 {
            return None;
        }
        let mut best: usize = 0;
        let mut best_score = self.children[0].ucb1(parent_visits);
        let mut i: usize = 1;
        while i < self.children.len()
            invariant
                forall|k: int| 0 <= k < self.children@.len() ==> (#[trigger] self.children@[k]).visits > 0,
                1 <= i <= self.children@.len(),
                best < i,
                best_score == ucb1_spec(
                    self.children@[best as int].wins as int,
                    self.children@[best as int].visits as int,
                    parent_visits as int,
                ),
                forall|j: int|
                    0 <= j < i ==> ucb1_spec(
                        self.children@[j].wins as int,
                        self.children@[j].visits as int,
                        parent_visits as int,
                    ) <= best_score,
                forall|j: int|
                    0 <= j < best ==> ucb1_spec(
                        self.children@[j].wins as int,
                        self.children@[j].visits as int,
                        parent_visits as int,
                    ) < best_score,
            decreases self.children@.len() - i,
        {
            let sc = self.children[i].ucb1(parent_visits);
            if sc > best_score {
                best = i;
                best_score = sc;
            }
            i += 1;
        }
        Some(best)
    }

    /// The node reached from this one by following, for each move of `path`, the first
    /// child with that move; `None` when some step has no such child.
    pub open spec fn follow(self, path: Seq<Move>) -> Option<Node>
        decreases path.len(),
    {
        if path.len() == 0 {
            Some(self)
        } else {
            let i = first_move_index(self.child_moves(), path[0]);
            if 0 <= i < self.children@.len() {
                self.children@[i].follow(path.drop_first())
            } else {
                None
            }
        }
    }

    /// The index of the first child with move `m`.
    fn find_child(&self, m: Move) -> (r: Option<usize>)
        ensures
            r matches Some(i) ==> i == first_move_index(self.child_moves(), m) && i < self.children@.len(),
            r.is_none() ==> first_move_index(self.child_moves(), m) == -1,
    {
        let ghost s = self.child_moves();
        let mut i: usize = 0;
        while i < self.children.len()
            invariant
                s == self.child_moves(),
                i <= s.len(),
                first_move_index(s.take(i as int), m) == -1,
            decreases s.len() - i,
        {
            assert(s.take(i + 1).drop_last() =~= s.take(i as int));
            if self.children[i].move_ == m {
                assert(first_move_index(s.take(i + 1), m) == i);
                proof {
                    lemma_first_move_prefix(s, m, i + 1);
                }
                return Some(i);
            }
            i += 1;
        }
        assert(s.take(s.len() as int) =~= s);
        None
    }

    /// The node reached by following `path` (see `follow`); every step must exist.
    pub fn get_child(&self, path: &[Move]) -> (r: Option<&Node>)
        requires
            self.follow(path@).is_some(),
        ensures
            r matches Some(n) ==> self.follow(path@) == Some(*n),
            r.is_none() ==> self.follow(path@).is_none(),
    {
        let mut current: &Node = self;
        let mut k: usize = 0;
        assert(path@.subrange(0, path@.len() as int) =~= path@);
        while k < path.len()
            invariant
                k <= path@.len(),
                self.follow(path@) == current.follow(path@.subrange(k as int, path@.len() as int)),
            decreases path@.len() - k,
        {
            let ghost rest = path@.subrange(k as int, path@.len() as int);
            assert(rest.drop_first() =~= path@.subrange(k + 1, path@.len() as int));
            match current.find_child(path[k]) {
                Some(f) => {
                    current = &current.children[f];
                },
                None => {
                    return None;
                },
            }
            k += 1;
        }
        Some(current)
    }
}

/// The index of the first `m` in `s`, or -1.
pub open spec fn first_move_index(s: Seq<Move>, m: Move) -> int
    decreases s.len(),
{
    if s.len() == 0 {
        -1
    } else {
        let r = first_move_index(s.drop_last(), m);
        if r >= 0 {
            r
        } else if s.last() == m {
            s.len() - 1
        } else {
            -1
        }
    }
}

proof fn lemma_first_move_prefix(s: Seq<Move>, m: Move, i: int)
    requires
        0 <= i <= s.len(),
        first_move_index(s.take(i), m) >= 0,
    ensures
        first_move_index(s, m) == first_move_index(s.take(i), m),
    decreases s.len() - i,
{
    if i < s.len() {
        assert(s.take(i + 1).drop_last() =~= s.take(i));
        lemma_first_move_prefix(s, m, i + 1);
    } else {
        assert(s.take(i) =~= s);
    }
}

/// Relies on rayon's `into_par_iter`, `map` and `sum` over `0..games`: the result is the sum
/// of `games` independent calls of `Simulation::rollout_wins` (each at most 1, and exactly
/// 1 or exactly 0 on a game already over), run in parallel on the shared read-only
/// `simulation`.
#[verifier::external_body]
fn parallel_rollouts(simulation: &Simulation, games: u32, max_ticks: u32) -> (r: u32)
    requires
        simulation@.wf(),
    ensures
        r <= games,
        simulation@.is_over() ==> r == if simulation@.did_win() {
            games
        } else {
            0
        },
{
    (0..games).into_par_iter().map(|_| simulation.rollout_wins(max_ticks)).sum()
}

impl Node {
    /// Applies this node's move to `simulation`, runs the configured number of rollouts from
    /// there and records them here. Returns the number of rollouts won.
    pub fn simulate(&mut self, config: &MCTSConfig, simulation: Simulation) -> (wins: u32)
        requires
            old(self).wf(),
            simulation@.wf(),
            old(self).visits + config.games_per_search <= u32::MAX,
        ensures
            wins <= config.games_per_search,
            final(self).visits == old(self).visits + config.games_per_search,
            final(self).wins == old(self).wins + wins,
            final(self).move_ == old(self).move_,
            final(self).state == old(self).state,
            final(self).children@ == old(self).children@,
            final(self).wf(),
            simulation@.is_over() ==> wins == if simulation@.did_win() {
                config.games_per_search
            } else {
                0
            },
    {
        let mut sim = simulation;
        sim.apply_move(&self.move_);
        let wins = parallel_rollouts(&sim, config.games_per_search, config.max_depth);
        self.visits = self.visits + config.games_per_search;
        self.wins = self.wins + wins;
        wins
    }

    /// Rolls out the first child not visited yet and records the result in it; marks this
    /// node expanded once every child has been visited. Returns the rollouts won.
    pub fn expand(&mut self, config: &MCTSConfig, simulation: Simulation) -> (wins: u32)
        requires
            old(self).wf(),
            old(self).state == NodeState::Visited,
            simulation@.wf(),
            old(self).visits >= config.games_per_search,
            old(self).wins + config.games_per_search <= old(self).visits,
        ensures
            wins <= config.games_per_search,
            final(self).visits == old(self).visits,
            final(self).wins == old(self).wins,
            final(self).move_ == old(self).move_,
            final(self).child_moves() == old(self).child_moves(),
            forall|i: int|
                0 <= i < old(self).children@.len() ==> (#[trigger] final(self).children@[i]).visits
                    >= old(self).children@[i].visits,
            exists|i: int|
                first_unvisited(old(self).children@, i) && credited(
                    old(self).children@,
                    final(self).children@,
                    i,
                    config.games_per_search as int,
                    wins as int,
                ) && final(self).children@[i].children@ == old(self).children@[i].children@
                    && final(self).children@[i].state == old(self).children@[i].state,
            final(self).state == if forall|j: int|
                0 <= j < final(self).children@.len() ==> (#[trigger] final(self).children@[j]).visits > 0 {
                NodeState::Expanded
            } else {
                NodeState::Visited
            },
            final(self).wf(),
    {
        let ghost old_children = self.children@;
        let n = self.children.len();
        let mut i: usize = 0;
        while i < n && self.children[i].visits != 0
            invariant
                n == self.children@.len(),
                i <= n,
                self.children@ == old_children,
                exists|k: int| 0 <= k < n && (#[trigger] self.children@[k]).visits == 0,
                forall|j: int| 0 <= j < i ==> (#[trigger] self.children@[j]).visits > 0,
            decreases n - i,
        {
            i += 1;
        }
        if i >= n {
            assert(false);
            return 0;
        }
        let mut child = self.children.remove(i);
        assert(child == old_children[i as int]);
        let wins = child.simulate(config, simulation);
        self.children.insert(i, child);
        assert(self.children@ =~= old_children.update(i as int, child));
        let mut all_visited = true;
        let mut k: usize = 0;
        while k < n
            invariant
                n == self.children@.len(),
                k <= n,
                all_visited <==> forall|j: int| 0 <= j < k ==> (#[trigger] self.children@[j]).visits > 0,
            decreases n - k,
        {
            if self.children[k].visits == 0 {
                all_visited = false;
            }
            k += 1;
        }
        if all_visited {
            self.state = NodeState::Expanded;
        }
        assert(self.child_moves() =~= old(self).child_moves());
        assert(first_unvisited(old_children, i as int));
        assert(credited(old_children, self.children@, i as int, config.games_per_search as int, wins as int));
        wins
    }

    /// One round of search through this node: applies its move unless it is the root,
    /// descends by UCB1 through expanded nodes, creates the children of a new node, rolls
    /// out one unvisited child, and records the rollouts on the way back. Returns the
    /// rollouts won.
    pub fn select(&mut self, config: &MCTSConfig, simulation: Simulation, root: bool) -> (wins: u32)
        requires
            old(self).wf(),
            simulation@.wf(),
            old(self).visits + config.games_per_search <= u32::MAX,
        ensures
            wins <= config.games_per_search,
            final(self).visits == old(self).visits + config.games_per_search,
            final(self).wins == old(self).wins + wins,
            final(self).move_ == old(self).move_,
            old(self).children@.len() > 0 ==> final(self).child_moves() == old(self).child_moves(),
            forall|i: int|
                0 <= i < old(self).children@.len() ==> (#[trigger] final(self).children@[i]).visits
                    >= old(self).children@[i].visits,
            old(self).state == NodeState::Visited ==> exists|i: int|
                first_unvisited(old(self).children@, i) && credited(
                    old(self).children@,
                    final(self).children@,
                    i,
                    config.games_per_search as int,
                    wins as int,
                ),
            old(self).state == NodeState::Expanded ==> final(self).state == NodeState::Expanded,
            old(self).state == NodeState::Expanded ==> exists|b: int|
                ucb_best(old(self).children@, old(self).visits + config.games_per_search, b) && credited(
                    old(self).children@,
                    final(self).children@,
                    b,
                    config.games_per_search as int,
                    wins as int,
                ),
            root && old(self).children@.len() == 0 ==> {
                &&& final(self).child_moves() == expansion(simulation@.allowed())
                &&& final(self).children@[0].visits == config.games_per_search
            },
            final(self).wf(),
        decreases *old(self),
    {
        let g = config.games_per_search;
        let mut sim = simulation;
        if !root {
            sim.apply_move(&self.move_);
        }
        self.visits = self.visits + g;
        let wins = match self.state {
            NodeState::Expanded => {
                let b = match self.best_child(self.visits) {
                    Some(b) => b,
                    None => {
                        assert(false);
                        return 0;
                    },
                };
                let ghost old_children = self.children@;
                let mut child = self.children.remove(b);
                assert(child == old_children[b as int]);
                assert(decreases_to!(*old(self) => child)) by {
                    assert(decreases_to!(old(self).children => old(self).children[b as int]));
                };
                let w = child.select(config, sim, false);
                self.children.insert(b, child);
                assert(self.children@ =~= old_children.update(b as int, child));
                assert(self.child_moves() =~= old(self).child_moves());
                assert(credited(old_children, self.children@, b as int, g as int, w as int));
                w
            },
            NodeState::Leaf => {
                let moves = sim.allowed_moves();
                let mut kids: Vec<Node> = Vec::new();
                let mut k: usize = 0;
                while k < moves.len()
                    invariant
                        k <= moves@.len(),
                        kids@.len() == k,
                        forall|j: int|
                            0 <= j < k ==> {
                                &&& (#[trigger] kids@[j]).move_ == moves@[j]
                                &&& kids@[j].visits == 0
                                &&& kids@[j].wins == 0
                                &&& kids@[j].wf()
                            },
                    decreases moves@.len() - k,
                {
                    kids.push(Node::new(moves[k]));
                    k += 1;
                }
                if kids.len() == 0 {
                    kids.push(Node::new(Move::Up));
                }
                self.children = kids;
                self.state = NodeState::Visited;
                assert(self.children@[0].visits == 0);
                assert(self.child_moves() =~= expansion(sim@.allowed()) || !root);
                self.expand(config, sim)
            },
            NodeState::Visited => self.expand(config, sim),
        };
        self.wins = self.wins + wins;
        wins
    }
}

} // verus!
