use crate::board::{on_board, GameState};
use crate::moves::Move;
use crate::point::Point;
use crate::settings::Ruleset;
use crate::snake::{views, Snake, SnakeID, SnakeView};
use crate::random::random_below;
use vstd::prelude::*;

verus! {

/// Health of an agent right after it eats.
pub const MAX_HEALTH: i32 = 100;

/// The mathematical content of a simulation.
pub struct SimView {
    pub you: SnakeID,
    pub turn: int,
    pub width: int,
    pub height: int,
    pub alive: Seq<SnakeView>,
    pub dead: Seq<SnakeView>,
    pub food: Seq<Point>,
    pub hazards: Seq<Point>,
    /// `ate[i]`: the alive agent `i` ate food on the previous tick.
    pub ate: Seq<bool>,
    pub rules: Ruleset,
}

/// The elements of `s` whose flag in `flags` equals `want`, in order.
pub open spec fn pick<A>(s: Seq<A>, flags: Seq<bool>, want: bool) -> Seq<A>
    decreases s.len(),
{
    if s.len() == 0 {
        Seq::empty()
    } else {
        let rest = pick(s.drop_last(), flags.take(s.len() - 1), want);
        if flags[s.len() - 1] == want {
            rest.push(s.last())
        } else {
            rest
        }
    }
}

/// No two agents of `s` share an identifier.
pub open spec fn distinct_ids(s: Seq<SnakeView>) -> bool {
    forall|i: int, j: int| 0 <= i < j < s.len() ==> (#[trigger] s[i]).id != (#[trigger] s[j]).id
}

/// No agent of `a` shares an identifier with an agent of `b`.
pub open spec fn ids_apart(a: Seq<SnakeView>, b: Seq<SnakeView>) -> bool {
    forall|i: int, j: int| 0 <= i < a.len() && 0 <= j < b.len() ==> (#[trigger] a[i]).id != (#[trigger] b[j]).id
}

/// Some agent of `s` has identifier `id`.
pub open spec fn has_id(s: Seq<SnakeView>, id: SnakeID) -> bool {
    exists|j: int| 0 <= j < s.len() && s[j].id == id
}

/// Some agent of `s` whose flag is `w` has identifier `id`.
pub open spec fn flagged_id(s: Seq<SnakeView>, f: Seq<bool>, w: bool, id: SnakeID) -> bool {
    exists|j: int| 0 <= j < s.len() && f[j] == w && s[j].id == id
}

/// Every agent kept by `pick` has the identifier of an agent of `s` whose flag is `w`.
proof fn lemma_pick_ids(s: Seq<SnakeView>, f: Seq<bool>, w: bool)
    requires
        f.len() == s.len(),
    ensures
        forall|k: int| 0 <= k < pick(s, f, w).len() ==> flagged_id(s, f, w, (#[trigger] pick(s, f, w)[k]).id),
{
    let prop = |a: SnakeView| flagged_id(s, f, w, a.id);
    assert forall|j: int| 0 <= j < s.len() && f[j] == w implies prop(#[trigger] s[j]) by {
        assert(s[j].id == s[j].id);
    }
    lemma_pick_all(s, f, w, prop);
    assert forall|k: int| 0 <= k < pick(s, f, w).len() implies flagged_id(s, f, w, (#[trigger] pick(s, f, w)[k]).id) by {
        assert(prop(pick(s, f, w)[k]));
    }
}

/// `pick` keeps identifiers distinct.
proof fn lemma_pick_distinct(s: Seq<SnakeView>, f: Seq<bool>, w: bool)
    requires
        f.len() == s.len(),
        distinct_ids(s),
    ensures
        distinct_ids(pick(s, f, w)),
    decreases s.len(),
{
    if s.len() > 0 {
        let n = s.len() - 1;
        let d = s.drop_last();
        let fd = f.take(n);
        lemma_pick_distinct(d, fd, w);
        lemma_pick_ids(d, fd, w);
        let rest = pick(d, fd, w);
        let all = pick(s, f, w);
        assert forall|i: int, j: int| 0 <= i < j < all.len() implies (#[trigger] all[i]).id != (#[trigger] all[j]).id by {
            assert(all[i] == rest[i]);
            if j < rest.len() {
                assert(all[j] == rest[j]);
            } else {
                assert(all[j] == s[n]);
                assert(flagged_id(d, fd, w, rest[i].id));
                let q = choose|q: int| 0 <= q < d.len() && fd[q] == w && d[q].id == rest[i].id;
                assert(s[q].id != s[n].id);
            }
        }
    }
}

/// The first move given for `id` in `moves`.
pub open spec fn lookup(moves: Seq<(SnakeID, Move)>, id: SnakeID) -> Option<Move>
    decreases moves.len(),
{
    if moves.len() == 0 {
        None
    } else if moves[0].0 == id {
        Some(moves[0].1)
    } else {
        lookup(moves.drop_first(), id)
    }
}

/// The move an agent made last, read from its head and neck; `Up` when it cannot be read.
pub open spec fn default_move(a: SnakeView) -> Move {
    if a.body.len() >= 2 && Move::between(a.body[1], a.head).is_some() {
        Move::between(a.body[1], a.head).unwrap()
    } else {
        Move::Up
    }
}

/// Some food lies next to `head`.
pub open spec fn food_adjacent(food: Seq<Point>, head: Point) -> bool {
    exists|d: int| 0 <= d < 4 && food.contains(#[trigger] head.neighbors_spec()[d])
}

/// Moving a head onto `p` collides with the body of `other`, as it stood before the tick.
/// Its tail cell is lethal only when `other` is shorter than 3 or has food next to its head.
pub open spec fn body_hit(other: SnakeView, food: Seq<Point>, p: Point) -> bool {
    ||| exists|k: int| 0 <= k < other.body.len() - 1 && other.body[k] == p
    ||| p == other.tail() && (other.length < 3 || food_adjacent(food, other.head))
}

/// The index of the first agent of `s` with identifier `id`, or -1.
pub open spec fn first_index(s: Seq<SnakeView>, id: SnakeID) -> int
    decreases s.len(),
{
    if s.len() == 0 {
        -1
    } else {
        let r = first_index(s.drop_last(), id);
        if r >= 0 {
            r
        } else if s.last().id == id {
            s.len() - 1
        } else {
            -1
        }
    }
}

proof fn lemma_first_index_prefix(s: Seq<SnakeView>, id: SnakeID, i: int)
    requires
        0 <= i <= s.len(),
        first_index(s.take(i), id) >= 0,
    ensures
        first_index(s, id) == first_index(s.take(i), id),
    decreases s.len() - i,
{
    if i < s.len() {
        assert(s.take(i + 1).drop_last() =~= s.take(i));
        lemma_first_index_prefix(s, id, i + 1);
    } else {
        assert(s.take(i) =~= s);
    }
}

proof fn lemma_first_index_found(s: Seq<SnakeView>, id: SnakeID)
    ensures
        first_index(s, id) >= 0 <==> exists|i: int| 0 <= i < s.len() && #[trigger] s[i].id == id,
        first_index(s, id) < s.len(),
    decreases s.len(),
{
    if s.len() > 0 {
        lemma_first_index_found(s.drop_last(), id);
        if first_index(s.drop_last(), id) >= 0 {
            let i = choose|i: int| 0 <= i < s.drop_last().len() && #[trigger] s.drop_last()[i].id == id;
            assert(s[i].id == id);
        }
        if exists|i: int| 0 <= i < s.len() && #[trigger] s[i].id == id {
            let i = choose|i: int| 0 <= i < s.len() && #[trigger] s[i].id == id;
            if i < s.len() - 1 {
                assert(s.drop_last()[i].id == id);
            }
        }
    }
}

pub open spec fn heads(s: Seq<SnakeView>) -> Seq<Point> {
    s.map_values(|a: SnakeView| a.head)
}


proof fn lemma_pick_step<A>(s: Seq<A>, f: Seq<bool>, w: bool, i: int)
    requires
        0 <= i < s.len(),
        f.len() == s.len(),
    ensures
        pick(s.take(i + 1), f.take(i + 1), w) == if f[i] == w {
            pick(s.take(i), f.take(i), w).push(s[i])
        } else {
            pick(s.take(i), f.take(i), w)
        },
{
    assert(s.take(i + 1).drop_last() =~= s.take(i));
    assert(f.take(i + 1).take(i) =~= f.take(i));
}

proof fn lemma_pick_all<A>(s: Seq<A>, f: Seq<bool>, w: bool, prop: spec_fn(A) -> bool)
    requires
        f.len() == s.len(),
        forall|j: int| 0 <= j < s.len() && f[j] == w ==> prop(#[trigger] s[j]),
    ensures
        forall|k: int| 0 <= k < pick(s, f, w).len() ==> prop(#[trigger] pick(s, f, w)[k]),
    decreases s.len(),
{
    if s.len() > 0 {
        let n = s.len() - 1;
        assert forall|j: int| 0 <= j < s.drop_last().len() && f.take(n)[j] == w implies prop(
            #[trigger] s.drop_last()[j],
        ) by {
            assert(s.drop_last()[j] == s[j]);
        }
        lemma_pick_all(s.drop_last(), f.take(n), w, prop);
        let rest = pick(s.drop_last(), f.take(n), w);
        assert forall|k: int| 0 <= k < pick(s, f, w).len() implies prop(#[trigger] pick(s, f, w)[k]) by {
            if k < rest.len() {
                assert(pick(s, f, w)[k] == rest[k]);
            } else {
                assert(pick(s, f, w)[k] == s[n]);
            }
        }
    }
}

proof fn lemma_pick_len<A, B>(s: Seq<A>, t: Seq<B>, f: Seq<bool>, w: bool)
    requires
        f.len() == s.len(),
        t.len() == s.len(),
    ensures
        pick(s, f, w).len() == pick(t, f, w).len(),
    decreases s.len(),
{
    if s.len() > 0 {
        lemma_pick_len(s.drop_last(), t.drop_last(), f.take(s.len() - 1), w);
    }
}

/// An element whose flag is `w` is kept by `pick`.
pub proof fn lemma_pick_contains<A>(s: Seq<A>, f: Seq<bool>, w: bool, i: int)
    requires
        f.len() == s.len(),
        0 <= i < s.len(),
        f[i] == w,
    ensures
        pick(s, f, w).contains(s[i]),
    decreases s.len(),
{
    let n = s.len() - 1;
    if i < n {
        lemma_pick_contains(s.drop_last(), f.take(n), w, i);
        let rest = pick(s.drop_last(), f.take(n), w);
        let k = choose|k: int| 0 <= k < rest.len() && rest[k] == s.drop_last()[i];
        assert(pick(s, f, w)[k] == s[i]);
    } else {
        assert(pick(s, f, w).last() == s[i]);
    }
}

impl SimView {
    pub open spec fn damage(self) -> int {
        self.rules.settings.hazard_damage_per_turn as int
    }

    pub open spec fn wf(self) -> bool {
        &&& 0 <= self.width <= i32::MAX
        &&& 0 <= self.height <= i32::MAX
        &&& self.damage() <= i32::MAX
        &&& self.ate.len() == self.alive.len()
        &&& forall|i: int|
            0 <= i < self.alive.len() ==> {
                let a = #[trigger] self.alive[i];
                &&& a.wf()
                &&& on_board(self.width, self.height, a.head)
                &&& 0 <= a.health <= i32::MAX
                &&& 0 <= a.length <= u32::MAX
            }
        &&& distinct_ids(self.alive)
        &&& distinct_ids(self.dead)
        &&& ids_apart(self.alive, self.dead)
    }

    /// One more tick fits the integer types.
    pub open spec fn can_step(self) -> bool {
        &&& self.turn < u32::MAX
        &&& forall|i: int| 0 <= i < self.alive.len() ==> #[trigger] self.alive[i].length < u32::MAX
    }

    pub open spec fn has_alive(self, id: SnakeID) -> bool {
        exists|i: int| 0 <= i < self.alive.len() && #[trigger] self.alive[i].id == id
    }

    pub open spec fn has_dead(self, id: SnakeID) -> bool {
        exists|i: int| 0 <= i < self.dead.len() && #[trigger] self.dead[i].id == id
    }

    /// At most one agent is left, or the controlled agent has been eliminated.
    pub open spec fn is_over(self) -> bool {
        self.alive.len() <= 1 || self.has_dead(self.you)
    }

    /// The game is over and the controlled agent is still alive.
    pub open spec fn did_win(self) -> bool {
        self.is_over() && self.has_alive(self.you)
    }

    /// Agent `i` after moving by `m`, before eliminations.
    pub open spec fn moved(self, i: int, m: Move) -> SnakeView {
        let a = self.alive[i];
        let h = m.apply(a.head);
        SnakeView {
            id: a.id,
            head: h,
            body: if self.ate[i] {
                seq![h] + a.body
            } else {
                seq![h] + a.body.drop_last()
            },
            length: if self.ate[i] {
                a.length + 1
            } else {
                a.length
            },
            health: if self.food.contains(h) {
                MAX_HEALTH as int
            } else if self.hazards.contains(h) {
                a.health - self.damage()
            } else {
                a.health - 1
            },
        }
    }

    pub open spec fn moved_all(self, ms: Seq<Move>) -> Seq<SnakeView> {
        Seq::new(self.alive.len(), |i: int| self.moved(i, ms[i]))
    }

    /// Which agents land on food.
    pub open spec fn eats(self, ms: Seq<Move>) -> Seq<bool> {
        Seq::new(self.alive.len(), |i: int| self.food.contains(ms[i].apply(self.alive[i].head)))
    }

    /// The head of agent `j` lands on the head of agent `i`, and `j` is at least as long.
    pub open spec fn head_hit(self, ms: Seq<Move>, i: int, j: int) -> bool {
        let mv = self.moved_all(ms);
        mv[j].head == mv[i].head && mv[j].length >= mv[i].length
    }

    /// Agent `i` is eliminated by the tick that applies `ms`.
    pub open spec fn eliminated(self, ms: Seq<Move>, i: int) -> bool {
        let me = self.moved_all(ms)[i];
        ||| !on_board(self.width, self.height, me.head)
        ||| exists|j: int|
            0 <= j < self.alive.len() && j != i && body_hit(#[trigger] self.alive[j], self.food, me.head)
        ||| exists|j: int| 0 <= j < self.alive.len() && j != i && #[trigger] self.head_hit(ms, i, j)
        ||| me.health <= 0
    }

    pub open spec fn eliminations(self, ms: Seq<Move>) -> Seq<bool> {
        Seq::new(self.alive.len(), |i: int| self.eliminated(ms, i))
    }

    /// One tick in which alive agent `i` makes move `ms[i]`: movement, growth, health,
    /// eliminations decided all at once, consumed food removed, turn counted.
    pub open spec fn tick(self, ms: Seq<Move>) -> SimView {
        let mv = self.moved_all(ms);
        let el = self.eliminations(ms);
        SimView {
            turn: self.turn + 1,
            alive: pick(mv, el, false),
            dead: self.dead + pick(mv, el, true),
            ate: pick(self.eats(ms), el, false),
            food: self.food.filter(|p: Point| !heads(mv).contains(p)),
            ..self
        }
    }

    /// The move of alive agent `i` under the move list `moves`.
    pub open spec fn resolve(self, moves: Seq<(SnakeID, Move)>, i: int) -> Move {
        match lookup(moves, self.alive[i].id) {
            Some(m) => m,
            None => default_move(self.alive[i]),
        }
    }

    pub open spec fn resolved(self, moves: Seq<(SnakeID, Move)>) -> Seq<Move> {
        Seq::new(self.alive.len(), |i: int| self.resolve(moves, i))
    }

    /// Some cell of an alive agent's body, or a food item, lies on `p`.
    pub open spec fn occupied(self, p: Point) -> bool {
        ||| self.food.contains(p)
        ||| exists|i: int, k: int|
            0 <= i < self.alive.len() && 0 <= k < self.alive[i].body.len() && #[trigger] self.alive[i].body[k]
                == p
    }

    /// The board cells in row-major order.
    pub open spec fn cells(self) -> Seq<Point> {
        Seq::new((self.width * self.height) as nat, |k: int| Point::at(k % self.width, k / self.width))
    }

    pub open spec fn free_cells(self) -> Seq<Point> {
        self.cells().filter(|p: Point| !self.occupied(p))
    }

    /// A food item is due: too few are on the board, or the roll (out of 100) is under the chance.
    pub open spec fn wants_food(self, roll: int) -> bool {
        self.food.len() < self.rules.settings.minimum_food || roll < self.rules.settings.food_spawn_chance
    }

    /// Spawns at most one food item on the free cell chosen by `choice`.
    pub open spec fn spawn(self, roll: int, choice: int) -> SimView {
        let free = self.free_cells();
        if self.wants_food(roll) && free.len() > 0 {
            SimView { food: self.food.push(free[choice % free.len() as int]), ..self }
        } else {
            self
        }
    }

    /// Some alive agent's body other than its tail lies on `p`.
    pub open spec fn blocked(self, p: Point) -> bool {
        exists|j: int, k: int|
            0 <= j < self.alive.len() && 0 <= k < self.alive[j].body.len() - 1 && #[trigger] self.alive[j].body[k]
                == p
    }

    pub open spec fn safe_cell(self, p: Point) -> bool {
        on_board(self.width, self.height, p) && !self.blocked(p)
    }

    /// The moves of alive agent `i` that stay on the board and avoid every body but tails.
    pub open spec fn legal_moves(self, i: int) -> Seq<Move> {
        Move::all_spec().filter(|m: Move| self.safe_cell(m.apply(self.alive[i].head)))
    }

    /// The rollout choice of alive agent `i` for the random value `r`.
    pub open spec fn policy_move(self, i: int, r: int) -> Move {
        let l = self.legal_moves(i);
        if l.len() > 0 {
            l[r % l.len() as int]
        } else {
            Move::all_spec()[r % 4]
        }
    }

    pub open spec fn policy_moves(self, picks: Seq<u32>) -> Seq<Move> {
        Seq::new(self.alive.len(), |i: int| self.policy_move(i, picks[i] as int))
    }

    /// The controlled agent makes `m`; every other alive agent `i` its rollout choice for `picks[i]`.
    pub open spec fn guided_moves(self, m: Move, picks: Seq<u32>) -> Seq<Move> {
        Seq::new(
            self.alive.len(),
            |i: int|
                if self.alive[i].id == self.you {
                    m
                } else {
                    self.policy_move(i, picks[i] as int)
                },
        )
    }

    /// `next` follows from this state by one rollout tick, for some random values.
    pub open spec fn rollout_step(self, next: SimView) -> bool {
        exists|picks: Seq<u32>, roll: int, choice: int|
            picks.len() == self.alive.len() && #[trigger] self.tick(self.policy_moves(picks)).spawn(roll, choice)
                == next
    }

    /// `b` follows `a` by one rollout tick from a well-formed state whose game is not over
    /// and that has room for one more tick.
    pub open spec fn rollout_edge(a: SimView, b: SimView) -> bool {
        a.wf() && a.can_step() && !a.is_over() && a.rollout_step(b)
    }

    /// `states` lists `k + 1` states from this one to `t`, each following the one before by
    /// a rollout tick.
    pub open spec fn rollout_path(self, states: Seq<SimView>, t: SimView, k: nat) -> bool {
        &&& states.len() == k + 1
        &&& states[0] == self
        &&& states[k as int] == t
        &&& forall|i: int| 0 <= i < k ==> SimView::rollout_edge(#[trigger] states[i], states[i + 1])
    }

    /// `t` is reached from this state by `k` rollout ticks.
    pub open spec fn rolls_to(self, t: SimView, k: nat) -> bool {
        exists|states: Seq<SimView>| #[trigger] self.rollout_path(states, t, k)
    }

    /// The index of the first alive agent with identifier `id`, or -1.
    pub open spec fn index_of(self, id: SnakeID) -> int {
        first_index(self.alive, id)
    }

    /// The moves that keep the controlled agent's head on the board; empty once it is gone.
    pub open spec fn on_board_moves(self) -> Seq<Move> {
        let i = self.index_of(self.you);
        if i >= 0 {
            Move::all_spec().filter(|m: Move| on_board(self.width, self.height, m.apply(self.alive[i].head)))
        } else {
            Seq::empty()
        }
    }

    /// The moves the controlled agent may make; empty once it is gone.
    pub open spec fn allowed(self) -> Seq<Move> {
        let i = self.index_of(self.you);
        if i >= 0 {
            self.legal_moves(i)
        } else {
            Seq::empty()
        }
    }

    /// The tick for a move list given by agent identifier.
    pub open spec fn step_spec(self, moves: Seq<(SnakeID, Move)>) -> SimView {
        self.tick(self.resolved(moves))
    }
}



/// Applying the same moves to the same world twice gives the same world: the tick is a
/// function of the world and the moves alone.
pub proof fn lemma_step_deterministic(a: SimView, b: SimView, moves: Seq<(SnakeID, Move)>)
    requires
        a == b,
    ensures
        a.step_spec(moves) == b.step_spec(moves),
{
}

/// An agent that ate on the previous tick grows by one body cell and one unit of length;
/// any other agent keeps both. If it survives the tick, it is among the alive agents after it.
pub proof fn lemma_growth(v: SimView, ms: Seq<Move>, i: int)
    requires
        v.wf(),
        ms.len() == v.alive.len(),
        0 <= i < v.alive.len(),
    ensures
        ({
            let a = v.alive[i];
            let b = v.moved_all(ms)[i];
            &&& b.id == a.id
            &&& v.ate[i] ==> b.length == a.length + 1 && b.body.len() == a.body.len() + 1
            &&& !v.ate[i] ==> b.length == a.length && b.body.len() == a.body.len()
            &&& !v.eliminated(ms, i) ==> v.tick(ms).alive.contains(b)
        }),
{
    let el = v.eliminations(ms);
    if !v.eliminated(ms, i) {
        lemma_pick_contains(v.moved_all(ms), el, false, i);
    }
}

/// An agent whose head leaves the board (`x = -1`, `x = width`, `y = -1` or `y = height`)
/// is eliminated and joins the dead agents.
pub proof fn lemma_wall(v: SimView, ms: Seq<Move>, i: int)
    requires
        v.wf(),
        ms.len() == v.alive.len(),
        0 <= i < v.alive.len(),
        !on_board(v.width, v.height, ms[i].apply(v.alive[i].head)),
    ensures
        v.eliminated(ms, i),
        v.tick(ms).dead.contains(v.moved_all(ms)[i]),
{
    let el = v.eliminations(ms);
    lemma_pick_contains(v.moved_all(ms), el, true, i);
    let k = choose|k: int| 0 <= k < pick(v.moved_all(ms), el, true).len() && pick(v.moved_all(ms), el, true)[k] == v.moved_all(ms)[i];
    assert(v.tick(ms).dead[v.dead.len() + k] == v.moved_all(ms)[i]);
}

/// Two agents whose heads meet both die when of equal length; when one is strictly shorter,
/// it dies and the meeting does not eliminate the longer one.
pub proof fn lemma_head_to_head(v: SimView, ms: Seq<Move>, i: int, j: int)
    requires
        v.wf(),
        ms.len() == v.alive.len(),
        0 <= i < v.alive.len(),
        0 <= j < v.alive.len(),
        i != j,
        v.moved_all(ms)[i].head == v.moved_all(ms)[j].head,
    ensures
        v.moved_all(ms)[i].length == v.moved_all(ms)[j].length ==> v.eliminated(ms, i) && v.eliminated(ms, j),
        v.moved_all(ms)[i].length < v.moved_all(ms)[j].length ==> v.eliminated(ms, i) && !v.head_hit(ms, j, i),
{
    assert(v.moved_all(ms)[i].length == v.moved_all(ms)[j].length ==> v.head_hit(ms, i, j) && v.head_hit(ms, j, i));
    assert(v.moved_all(ms)[i].length < v.moved_all(ms)[j].length ==> v.head_hit(ms, i, j));
}

/// Moving onto the tail cell of another agent `j` (and no other cell of its body) is a
/// collision exactly when `j` is shorter than 3 or has food next to its head; the collision
/// eliminates the mover.
pub proof fn lemma_tail_follow(v: SimView, ms: Seq<Move>, i: int, j: int)
    requires
        v.wf(),
        ms.len() == v.alive.len(),
        0 <= i < v.alive.len(),
        0 <= j < v.alive.len(),
        i != j,
        v.moved_all(ms)[i].head == v.alive[j].tail(),
        forall|k: int| 0 <= k < v.alive[j].body.len() - 1 ==> v.alive[j].body[k] != v.alive[j].tail(),
    ensures
        body_hit(v.alive[j], v.food, v.moved_all(ms)[i].head) <==> (v.alive[j].length < 3 || food_adjacent(
            v.food,
            v.alive[j].head,
        )),
        body_hit(v.alive[j], v.food, v.moved_all(ms)[i].head) ==> v.eliminated(ms, i),
{
}

/// On a tick, an agent's health becomes 100 when its head lands on food, and otherwise drops
/// by the hazard damage on a hazard cell and by exactly 1 elsewhere.
pub proof fn lemma_health(v: SimView, ms: Seq<Move>, i: int)
    requires
        v.wf(),
        ms.len() == v.alive.len(),
        0 <= i < v.alive.len(),
    ensures
        ({
            let h = ms[i].apply(v.alive[i].head);
            let b = v.moved_all(ms)[i];
            &&& v.food.contains(h) ==> b.health == 100
            &&& !v.food.contains(h) && !v.hazards.contains(h) ==> b.health == v.alive[i].health - 1
            &&& !v.food.contains(h) && v.hazards.contains(h) ==> b.health == v.alive[i].health - v.damage()
        }),
{
}

proof fn lemma_rolls_step(s: SimView, mid: SimView, t: SimView, k: nat)
    requires
        s.rolls_to(mid, k),
        SimView::rollout_edge(mid, t),
    ensures
        s.rolls_to(t, k + 1),
{
    let states = choose|states: Seq<SimView>| #[trigger] s.rollout_path(states, mid, k);
    let longer = states.push(t);
    assert forall|i: int| 0 <= i < k + 1 implies SimView::rollout_edge(#[trigger] longer[i], longer[i + 1]) by {
        if i < k {
            assert(longer[i] == states[i] && longer[i + 1] == states[i + 1]);
        }
    }
    assert(s.rollout_path(longer, t, k + 1));
}

proof fn lemma_rolls_start(s: SimView)
    ensures
        s.rolls_to(s, 0),
{
    assert(s.rollout_path(seq![s], s, 0));
}

/// A tick keeps identifiers distinct among the alive agents, among the dead ones, and
/// between the two; the dead agents stay dead, and every agent alive after it was alive before.
pub proof fn lemma_tick_ids(v: SimView, ms: Seq<Move>)
    requires
        v.wf(),
        ms.len() == v.alive.len(),
    ensures
        distinct_ids(v.tick(ms).alive),
        distinct_ids(v.tick(ms).dead),
        ids_apart(v.tick(ms).alive, v.tick(ms).dead),
        v.tick(ms).dead.take(v.dead.len() as int) == v.dead,
        forall|k: int| 0 <= k < v.tick(ms).alive.len() ==> has_id(v.alive, (#[trigger] v.tick(ms).alive[k]).id),
{
    let mv = v.moved_all(ms);
    let el = v.eliminations(ms);
    assert forall|i: int, j: int| 0 <= i < j < mv.len() implies (#[trigger] mv[i]).id != (#[trigger] mv[j]).id by {
        assert(mv[i].id == v.alive[i].id && mv[j].id == v.alive[j].id);
    }
    lemma_pick_distinct(mv, el, false);
    lemma_pick_distinct(mv, el, true);
    lemma_pick_ids(mv, el, false);
    lemma_pick_ids(mv, el, true);
    let al = pick(mv, el, false);
    let gone = pick(mv, el, true);
    let dead = v.dead + gone;
    assert forall|i: int, j: int| 0 <= i < j < dead.len() implies (#[trigger] dead[i]).id != (#[trigger] dead[j]).id by {
        if j < v.dead.len() {
        } else if i < v.dead.len() {
            assert(flagged_id(mv, el, true, gone[j - v.dead.len()].id));
            let q = choose|q: int| 0 <= q < mv.len() && el[q] == true && mv[q].id == gone[j - v.dead.len()].id;
            assert(mv[q].id == v.alive[q].id);
            assert(dead[j] == gone[j - v.dead.len()]);
        } else {
            assert(dead[i] == gone[i - v.dead.len()] && dead[j] == gone[j - v.dead.len()]);
        }
    }
    assert forall|i: int, j: int| 0 <= i < al.len() && 0 <= j < dead.len() implies (#[trigger] al[i]).id != (#[trigger] dead[j]).id by {
        assert(flagged_id(mv, el, false, al[i].id));
        let p = choose|p: int| 0 <= p < mv.len() && el[p] == false && mv[p].id == al[i].id;
        assert(mv[p].id == v.alive[p].id);
        if j < v.dead.len() {
        } else {
            assert(flagged_id(mv, el, true, gone[j - v.dead.len()].id));
            let q = choose|q: int| 0 <= q < mv.len() && el[q] == true && mv[q].id == gone[j - v.dead.len()].id;
            assert(mv[q].id == v.alive[q].id);
            assert(dead[j] == gone[j - v.dead.len()]);
            assert(p != q);
        }
    }
    assert(dead.take(v.dead.len() as int) =~= v.dead);
    assert forall|k: int| 0 <= k < al.len() implies has_id(v.alive, (#[trigger] al[k]).id) by {
        assert(flagged_id(mv, el, false, al[k].id));
        let p = choose|p: int| 0 <= p < mv.len() && el[p] == false && mv[p].id == al[k].id;
        assert(v.alive[p].id == al[k].id);
    }
}

/// A snapshot the simulator accepts: coordinates and damage fit the integer types, and every
/// agent has a body that starts at its head on the board, with non-negative health.
pub open spec fn admissible(state: &GameState) -> bool {
    &&& state.board.width <= i32::MAX
    &&& state.board.height <= i32::MAX
    &&& state.game.ruleset.settings.hazard_damage_per_turn <= i32::MAX
    &&& forall|i: int|
        0 <= i < state.board.snakes@.len() ==> placed(
            state.board.width as int,
            state.board.height as int,
            #[trigger] state.board.snakes@[i]@,
        )
    &&& distinct_ids(views(state.board.snakes@))
}

/// `a` has a body that starts at its head on a `width` x `height` board, and non-negative health.
pub open spec fn placed(width: int, height: int, a: SnakeView) -> bool {
    &&& a.wf()
    &&& on_board(width, height, a.head)
    &&& a.health >= 0
}

/// The simulation that `Simulation::new` builds from a snapshot.
pub open spec fn initial(state: &GameState) -> SimView {
    SimView {
        you: state.you.id,
        turn: state.turn as int,
        width: state.board.width as int,
        height: state.board.height as int,
        alive: views(state.board.snakes@),
        dead: Seq::empty(),
        food: state.board.food@,
        hazards: state.board.hazards@,
        ate: Seq::new(state.board.snakes@.len(), |i: int| false),
        rules: state.game.ruleset,
    }
}

/// A working copy of the world used for planning and rollouts.
#[derive(Debug)]
pub struct Simulation {
    /// The controlled agent.
    pub snake_id: SnakeID,
    turn: u32,
    height: u32,
    width: u32,
    alive_snakes: Vec<Snake>,
    dead_snakes: Vec<Snake>,
    food: Vec<Point>,
    hazards: Vec<Point>,
    ate_food: Vec<bool>,
    rules: Ruleset,
}

impl View for Simulation {
    type V = SimView;

    closed spec fn view(&self) -> SimView {
        SimView {
            you: self.snake_id,
            turn: self.turn as int,
            width: self.width as int,
            height: self.height as int,
            alive: views(self.alive_snakes@),
            dead: views(self.dead_snakes@),
            food: self.food@,
            hazards: self.hazards@,
            ate: self.ate_food@,
            rules: self.rules,
        }
    }
}

/// Whether `p` is one of `v`.
pub fn contains_point(v: &Vec<Point>, p: Point) -> (r: bool)
    ensures
        r == v@.contains(p),
{
    let mut i: usize = 0;
    while i < v.len()
        invariant
            i <= v@.len(),
            forall|k: int| 0 <= k < i ==> v@[k] != p,
        decreases v@.len() - i,
    {
        if v[i] == p {
            return true;
        }
        i += 1;
    }
    false
}

/// A copy of `v`.
fn copy_points(v: &Vec<Point>) -> (r: Vec<Point>)
    ensures
        r@ == v@,
{
    let r = v.clone();
    assert(r@ =~= v@);
    r
}

/// A copy of each agent of `v`.
fn copy_snakes(v: &Vec<Snake>) -> (r: Vec<Snake>)
    ensures
        views(r@) == views(v@),
{
    let mut r: Vec<Snake> = Vec::new();
    let mut i: usize = 0;
    while i < v.len()
        invariant
            i <= v@.len(),
            views(r@) == views(v@).take(i as int),
        decreases v@.len() - i,
    {
        let ghost before = r@;
        r.push(v[i].duplicate());
        assert(views(r@) =~= views(before).push(v@[i as int]@));
        assert(views(v@).take(i + 1) =~= views(v@).take(i as int).push(v@[i as int]@));
        i += 1;
    }
    assert(views(v@).take(v@.len() as int) =~= views(v@));
    r
}

/// Whether moving a head onto `p` collides with `other` (see `body_hit`).
pub(crate) fn hits_body(other: &Snake, food: &Vec<Point>, p: Point) -> (r: bool)
    requires
        other@.wf(),
        other.head.steppable(),
    ensures
        r == body_hit(other@, food@, p),
{
    let n = other.body.len();
    let mut k: usize = 0;
    while k + 1 < n
        invariant
            n == other.body@.len(),
            n > 0,
            k < n,
            forall|q: int| 0 <= q < k ==> other.body@[q] != p,
        decreases n - k,
    {
        if other.body[k] == p {
            return true;
        }
        k += 1;
    }
    if other.body[n - 1] != p {
        return false;
    }
    if other.length < 3 {
        return true;
    }
    let around = other.head.neighbors();
    let mut d: usize = 0;
    while d < 4
        invariant
            around@ == other.head.neighbors_spec(),
            other@.wf(),
            p == other@.tail(),
            other.length >= 3,
            d <= 4,
            forall|q: int| 0 <= q < d ==> !food@.contains(#[trigger] other.head.neighbors_spec()[q]),
        decreases 4 - d,
    {
        if contains_point(food, around[d]) {
            assert(food@.contains(other.head.neighbors_spec()[d as int]));
            return true;
        }
        d += 1;
    }
    false
}

impl Simulation {
    /// Alive agent `i` after moving by `m`, and whether it lands on food.
    fn move_one(&self, i: usize, m: Move) -> (r: (Snake, bool))
        requires
            self@.wf(),
            self@.can_step(),
            i < self@.alive.len(),
        ensures
            r.0@ == self@.moved(i as int, m),
            r.1 == self@.food.contains(m.apply(self@.alive[i as int].head)),
    {
        let a = &self.alive_snakes[i];
        assert(self@.alive[i as int] == a@);
        let h = m.to_point(&a.head);
        let grows = self.ate_food[i];
        let keep = if grows { a.body.len() } else { a.body.len() - 1 };
        let mut body: Vec<Point> = Vec::new();
        body.push(h);
        let mut k: usize = 0;
        while k < keep
            invariant
                keep <= a.body@.len(),
                k <= keep,
                body@ == seq![h] + a.body@.take(k as int),
            decreases keep - k,
        {
            body.push(a.body[k]);
            assert(a.body@.take(k + 1) =~= a.body@.take(k as int).push(a.body@[k as int]));
            assert(body@ =~= seq![h] + a.body@.take(k + 1));
            k += 1;
        }
        assert(a.body@.take(a.body@.len() as int) =~= a.body@);
        assert(a.body@.take(a.body@.len() - 1) =~= a.body@.drop_last());
        let eats = contains_point(&self.food, h);
        let health: i32 = if eats {
            MAX_HEALTH
        } else if contains_point(&self.hazards, h) {
            a.health - self.rules.settings.hazard_damage_per_turn as i32
        } else {
            a.health - 1
        };
        let length: u32 = if grows { a.length + 1 } else { a.length };
        let squad = match &a.squad {
            Some(s) => Some(s.clone()),
            None => None,
        };
        let r = Snake { id: a.id, health, body, head: h, length, squad };
        assert(r@.body =~= self@.moved(i as int, m).body);
        (r, eats)
    }

    /// Whether alive agent `i` is eliminated, given every agent moved as `moved` holds.
    fn is_eliminated(&self, ms: Ghost<Seq<Move>>, moved: &Vec<Snake>, i: usize) -> (r: bool)
        requires
            self@.wf(),
            ms@.len() == self@.alive.len(),
            views(moved@) == self@.moved_all(ms@),
            i < self@.alive.len(),
        ensures
            r == self@.eliminated(ms@, i as int),
    {
        let n = self.alive_snakes.len();
        assert(views(moved@).len() == moved@.len());
        assert(self@.moved_all(ms@).len() == self@.alive.len());
        assert(self@.alive.len() == n);
        let me = &moved[i];
        assert(me@ == self@.moved_all(ms@)[i as int]);
        if !(me.head.x >= 0 && (me.head.x as i64) < self.width as i64 && me.head.y >= 0
            && (me.head.y as i64) < self.height as i64) {
            return true;
        }
        if me.health <= 0 {
            return true;
        }
        let mut j: usize = 0;
        while j < n
            invariant
                n == self@.alive.len(),
                moved@.len() == n,
                self@.wf(),
                views(moved@) == self@.moved_all(ms@),
                i < n,
                j <= n,
                me@ == self@.moved_all(ms@)[i as int],
                forall|q: int|
                    0 <= q < j && q != i ==> !body_hit(#[trigger] self@.alive[q], self@.food, me@.head),
                forall|q: int| 0 <= q < j && q != i ==> !#[trigger] self@.head_hit(ms@, i as int, q),
            decreases n - j,
        {
            if j != i {
                let other = &self.alive_snakes[j];
                assert(other@ == self@.alive[j as int]);
                if hits_body(other, &self.food, me.head) {
                    return true;
                }
                let o = &moved[j];
                assert(o@ == self@.moved_all(ms@)[j as int]);
                if o.head == me.head && o.length >= me.length {
                    assert(self@.head_hit(ms@, i as int, j as int));
                    return true;
                }
            }
            j += 1;
        }
        false
    }

    /// Whether some agent of `moved` has its head on `p`.
    fn any_head(moved: &Vec<Snake>, p: Point) -> (r: bool)
        ensures
            r == heads(views(moved@)).contains(p),
    {
        let mut i: usize = 0;
        while i < moved.len()
            invariant
                i <= moved@.len(),
                forall|k: int| 0 <= k < i ==> moved@[k].head != p,
            decreases moved@.len() - i,
        {
            if moved[i].head == p {
                assert(heads(views(moved@))[i as int] == p);
                return true;
            }
            i += 1;
        }
        false
    }

    /// Applies one tick in which alive agent `i` makes move `ms[i]` (see `SimView::tick`).
    pub fn tick_with(&mut self, ms: &Vec<Move>)
        requires
            old(self)@.wf(),
            old(self)@.can_step(),
            ms@.len() == old(self)@.alive.len(),
        ensures
            final(self)@ == old(self)@.tick(ms@),
            final(self)@.wf(),
    {
        let ghost v = self@;
        let n = self.alive_snakes.len();
        let mut moved: Vec<Snake> = Vec::new();
        let mut eats: Vec<bool> = Vec::new();
        let mut i: usize = 0;
        while i < n
            invariant
                self@ == v,
                v.wf(),
                v.can_step(),
                n == v.alive.len(),
                ms@.len() == n,
                i <= n,
                views(moved@) == v.moved_all(ms@).take(i as int),
                eats@ == v.eats(ms@).take(i as int),
            decreases n - i,
        {
            let (s, e) = self.move_one(i, ms[i]);
            let ghost before = views(moved@);
            moved.push(s);
            eats.push(e);
            assert(views(moved@) =~= before.push(s@));
            assert(v.moved_all(ms@).take(i + 1) =~= v.moved_all(ms@).take(i as int).push(s@));
            assert(eats@ =~= v.eats(ms@).take(i + 1));
            i += 1;
        }
        let ghost mv = v.moved_all(ms@);
        let ghost ev = v.eats(ms@);
        assert(mv.take(n as int) =~= mv);
        assert(ev.take(n as int) =~= ev);
        let mut elim: Vec<bool> = Vec::new();
        i = 0;
        while i < n
            invariant
                self@ == v,
                v.wf(),
                n == v.alive.len(),
                ms@.len() == n,
                i <= n,
                views(moved@) == mv,
                mv == v.moved_all(ms@),
                elim@ == v.eliminations(ms@).take(i as int),
            decreases n - i,
        {
            let e = self.is_eliminated(Ghost(ms@), &moved, i);
            elim.push(e);
            assert(elim@ =~= v.eliminations(ms@).take(i + 1));
            i += 1;
        }
        let ghost el = v.eliminations(ms@);
        assert(el.take(n as int) =~= el);
        let mut alive: Vec<Snake> = Vec::new();
        let mut ate: Vec<bool> = Vec::new();
        let ghost dead0 = v.dead;
        i = 0;
        while i < n
            invariant
                self@ == (SimView { dead: views(self.dead_snakes@), ..v }),
                v.can_step(),
                n == v.alive.len(),
                i <= n,
                views(moved@) == mv,
                mv.len() == n,
                eats@ == ev,
                ev.len() == n,
                elim@ == el,
                el.len() == n,
                views(alive@) == pick(mv.take(i as int), el.take(i as int), false),
                views(self.dead_snakes@) == dead0 + pick(mv.take(i as int), el.take(i as int), true),
                ate@ == pick(ev.take(i as int), el.take(i as int), false),
            decreases n - i,
        {
            proof {
                lemma_pick_step(mv, el, false, i as int);
                lemma_pick_step(mv, el, true, i as int);
                lemma_pick_step(ev, el, false, i as int);
            }
            let s = moved[i].duplicate();
            assert(s@ == mv[i as int]);
            if elim[i] {
                let ghost before = views(self.dead_snakes@);
                self.dead_snakes.push(s);
                assert(views(self.dead_snakes@) =~= before.push(s@));
            } else {
                let ghost before = views(alive@);
                alive.push(s);
                ate.push(eats[i]);
                assert(views(alive@) =~= before.push(s@));
            }
            i += 1;
        }
        assert(mv.take(n as int) =~= mv);
        assert(ev.take(n as int) =~= ev);
        let mut food: Vec<Point> = Vec::new();
        let mut k: usize = 0;
        while k < self.food.len()
            invariant
                self.food@ == v.food,
                k <= v.food.len(),
                views(moved@) == mv,
                food@ == v.food.take(k as int).filter(|p: Point| !heads(mv).contains(p)),
            decreases v.food.len() - k,
        {
            proof {
                assert(v.food.take(k + 1) =~= v.food.take(k as int).push(v.food[k as int]));
                v.food.take(k as int).lemma_filter_push(v.food[k as int], |p: Point| !heads(mv).contains(p));
            }
            if !Simulation::any_head(&moved, self.food[k]) {
                food.push(self.food[k]);
            }
            k += 1;
        }
        assert(v.food.take(v.food.len() as int) =~= v.food);
        self.alive_snakes = alive;
        self.ate_food = ate;
        self.food = food;
        self.turn = self.turn + 1;
        proof {
            lemma_pick_len(mv, ev, el, false);
            let ghost w = v.width;
            let ghost h = v.height;
            let ghost good = |a: SnakeView|
                a.wf() && on_board(w, h, a.head) && 0 <= a.health <= i32::MAX && 0 <= a.length <= u32::MAX;
            assert forall|j: int| 0 <= j < mv.len() && el[j] == false implies good(#[trigger] mv[j]) by {
                assert(!v.eliminated(ms@, j));
                assert(v.alive[j].wf());
            }
            lemma_pick_all(mv, el, false, good);
            let nv = self@;
            assert(nv.alive == pick(mv, el, false));
            assert forall|q: int| 0 <= q < nv.alive.len() implies {
                let a = #[trigger] nv.alive[q];
                &&& a.wf()
                &&& on_board(nv.width, nv.height, a.head)
                &&& 0 <= a.health <= i32::MAX
                &&& 0 <= a.length <= u32::MAX
            } by {
                assert(good(pick(mv, el, false)[q]));
            }
            lemma_tick_ids(v, ms@);
            assert(nv =~= v.tick(ms@));
        }
    }


    /// The first move given for `id` in `moves`.
    fn lookup_move(moves: &Vec<(SnakeID, Move)>, id: SnakeID) -> (r: Option<Move>)
        ensures
            r == lookup(moves@, id),
    {
        let mut i: usize = 0;
        assert(moves@.subrange(0, moves@.len() as int) =~= moves@);
        while i < moves.len()
            invariant
                i <= moves@.len(),
                lookup(moves@, id) == lookup(moves@.subrange(i as int, moves@.len() as int), id),
            decreases moves@.len() - i,
        {
            let ghost rest = moves@.subrange(i as int, moves@.len() as int);
            assert(rest.drop_first() =~= moves@.subrange(i + 1, moves@.len() as int));
            if moves[i].0 == id {
                return Some(moves[i].1);
            }
            i += 1;
        }
        None
    }

    /// The move that brought `a` where it is; `Up` when it cannot be read.
    fn default_of(a: &Snake) -> (r: Move)
        ensures
            r == default_move(a@),
    {
        if a.body.len() >= 2 {
            match Move::from_points(&a.body[1], &a.head) {
                Some(m) => m,
                None => Move::Up,
            }
        } else {
            Move::Up
        }
    }

    /// Applies one tick; `moves` gives agents their moves by identifier. An agent without an
    /// entry repeats its previous move, and entries for unknown agents are ignored.
    pub fn step(&mut self, moves: &Vec<(SnakeID, Move)>)
        requires
            old(self)@.wf(),
            old(self)@.can_step(),
        ensures
            final(self)@ == old(self)@.step_spec(moves@),
            final(self)@.wf(),
    {
        let ghost v = self@;
        let n = self.alive_snakes.len();
        let mut ms: Vec<Move> = Vec::new();
        let mut i: usize = 0;
        while i < n
            invariant
                self@ == v,
                n == v.alive.len(),
                i <= n,
                ms@ == v.resolved(moves@).take(i as int),
            decreases n - i,
        {
            let a = &self.alive_snakes[i];
            assert(a@ == v.alive[i as int]);
            let m = match Simulation::lookup_move(moves, a.id) {
                Some(m) => m,
                None => Simulation::default_of(a),
            };
            ms.push(m);
            assert(ms@ =~= v.resolved(moves@).take(i + 1));
            i += 1;
        }
        assert(ms@ =~= v.resolved(moves@));
        self.tick_with(&ms);
    }

    /// Whether `p` is a food cell or a body cell of an alive agent.
    fn is_occupied(&self, p: Point) -> (r: bool)
        ensures
            r == self@.occupied(p),
    {
        if contains_point(&self.food, p) {
            return true;
        }
        let mut i: usize = 0;
        while i < self.alive_snakes.len()
            invariant
                i <= self@.alive.len(),
                forall|j: int, k: int|
                    0 <= j < i && 0 <= k < self@.alive[j].body.len() ==> #[trigger] self@.alive[j].body[k] != p,
            decreases self@.alive.len() - i,
        {
            let a = &self.alive_snakes[i];
            assert(a@ == self@.alive[i as int]);
            if contains_point(&a.body, p) {
                proof {
                    let k = choose|k: int| 0 <= k < a.body@.len() && a.body@[k] == p;
                    assert(self@.alive[i as int].body[k] == p);
                }
                return true;
            }
            i += 1;
        }
        false
    }

    /// The cells where food may spawn, in row-major order.
    fn free_cells(&self) -> (r: Vec<Point>)
        requires
            self@.wf(),
        ensures
            r@ == self@.free_cells(),
    {
        let ghost v = self@;
        let w = self.width as u64;
        let hh0 = self.height as u64;
        assert(w * hh0 <= 0x4000_0000_0000_0000) by (nonlinear_arith)
            requires
                w <= 0x7fff_ffff,
                hh0 <= 0x7fff_ffff,
        ;
        let total: u64 = w * hh0;
        let mut r: Vec<Point> = Vec::new();
        let mut k: u64 = 0;
        while k < total
            invariant
                v == self@,
                v.wf(),
                w == v.width,
                total == v.width * v.height,
                k <= total,
                r@ == v.cells().take(k as int).filter(|p: Point| !v.occupied(p)),
            decreases total - k,
        {
            let hh = self.height as u64;
            assert(w > 0) by (nonlinear_arith)
                requires
                    k < w * hh,
            ;
            assert(k / w < hh) by (nonlinear_arith)
                requires
                    k < w * hh,
                    w > 0,
            ;
            let p = Point { x: (k % w) as i32, y: (k / w) as i32 };
            proof {
                assert(p == v.cells()[k as int]);
                assert(v.cells().take(k + 1) =~= v.cells().take(k as int).push(p));
                v.cells().take(k as int).lemma_filter_push(p, |p: Point| !v.occupied(p));
            }
            if !self.is_occupied(p) {
                r.push(p);
            }
            k += 1;
        }
        assert(v.cells().take(total as int) =~= v.cells());
        r
    }

    /// Spawns at most one food item (see `SimView::spawn`): `roll` is a value below 100 and
    /// `choice` picks among the free cells.
    pub fn spawn_food_with(&mut self, roll: u32, choice: u32)
        requires
            old(self)@.wf(),
        ensures
            final(self)@ == old(self)@.spawn(roll as int, choice as int),
            final(self)@.wf(),
    {
        let wants = (self.food.len() as u64) < self.rules.settings.minimum_food as u64 || roll
            < self.rules.settings.food_spawn_chance;
        if !wants {
            return;
        }
        let free = self.free_cells();
        if free.len() == 0 {
            return;
        }
        let p = free[(choice as usize) % free.len()];
        self.food.push(p);
    }

    /// Spawns at most one food item at random, by the rules of the session.
    pub fn spawn_food(&mut self)
        requires
            old(self)@.wf(),
        ensures
            exists|roll: int, choice: int| final(self)@ == old(self)@.spawn(roll, choice),
            final(self)@.wf(),
    {
        let roll = random_below(100);
        let choice = random_below(u32::MAX);
        self.spawn_food_with(roll, choice);
    }

    /// Whether `p` is on the board and off every alive body except the tails.
    fn is_safe_cell(&self, p: Point) -> (r: bool)
        requires
            self@.wf(),
        ensures
            r == self@.safe_cell(p),
    {
        if !(p.x >= 0 && (p.x as i64) < self.width as i64 && p.y >= 0 && (p.y as i64) < self.height as i64) {
            return false;
        }
        let mut j: usize = 0;
        while j < self.alive_snakes.len()
            invariant
                j <= self@.alive.len(),
                self@.wf(),
                on_board(self@.width, self@.height, p),
                forall|q: int, k: int|
                    0 <= q < j && 0 <= k < self@.alive[q].body.len() - 1 ==> #[trigger] self@.alive[q].body[k] != p,
            decreases self@.alive.len() - j,
        {
            let a = &self.alive_snakes[j];
            assert(a@ == self@.alive[j as int]);
            assert(a@.wf());
            let mut k: usize = 0;
            let last = a.body.len() - 1;
            while k < last
                invariant
                    last == a.body@.len() - 1,
                    j < self@.alive.len(),
                    a@ == self@.alive[j as int],
                    k < a.body@.len(),
                    forall|q: int| 0 <= q < k && q < a.body@.len() - 1 ==> a.body@[q] != p,
                decreases a.body@.len() - k,
            {
                if a.body[k] == p {
                    assert(self@.alive[j as int].body[k as int] == p);
                    return false;
                }
                k += 1;
            }
            j += 1;
        }
        true
    }

    /// The moves of alive agent `i` that stay on the board and avoid every body but tails.
    pub fn legal_moves(&self, i: usize) -> (r: Vec<Move>)
        requires
            self@.wf(),
            i < self@.alive.len(),
        ensures
            r@ == self@.legal_moves(i as int),
    {
        let ghost v = self@;
        let a = &self.alive_snakes[i];
        assert(a@ == v.alive[i as int]);
        let all = Move::all();
        let mut r: Vec<Move> = Vec::new();
        let mut d: usize = 0;
        while d < 4
            invariant
                v == self@,
                v.wf(),
                i < v.alive.len(),
                a@ == v.alive[i as int],
                all@ == Move::all_spec(),
                d <= 4,
                r@ == Move::all_spec().take(d as int).filter(
                    |m: Move| v.safe_cell(m.apply(v.alive[i as int].head)),
                ),
            decreases 4 - d,
        {
            proof {
                assert(Move::all_spec().take(d + 1) =~= Move::all_spec().take(d as int).push(all@[d as int]));
                Move::all_spec().take(d as int).lemma_filter_push(
                    all@[d as int],
                    |m: Move| v.safe_cell(m.apply(v.alive[i as int].head)),
                );
            }
            let m = all[d];
            let p = m.to_point(&a.head);
            if self.is_safe_cell(p) {
                r.push(m);
            }
            d += 1;
        }
        assert(Move::all_spec().take(4) =~= Move::all_spec());
        r
    }

    /// The rollout choice of alive agent `i` for the random value `pick`.
    fn policy_move(&self, i: usize, pick: u32) -> (r: Move)
        requires
            self@.wf(),
            i < self@.alive.len(),
        ensures
            r == self@.policy_move(i as int, pick as int),
    {
        let legal = self.legal_moves(i);
        if legal.len() > 0 {
            legal[(pick as usize) % legal.len()]
        } else {
            let all = Move::all();
            all[(pick % 4) as usize]
        }
    }

    /// The index of the first alive agent with identifier `id`.
    fn find(&self, id: SnakeID) -> (r: Option<usize>)
        ensures
            r matches Some(i) ==> self@.index_of(id) == i && i < self@.alive.len(),
            r.is_none() ==> self@.index_of(id) == -1,
    {
        let ghost s = self@.alive;
        let mut i: usize = 0;
        while i < self.alive_snakes.len()
            invariant
                s == self@.alive,
                i <= s.len(),
                first_index(s.take(i as int), id) == -1,
            decreases s.len() - i,
        {
            assert(s.take(i + 1).drop_last() =~= s.take(i as int));
            if self.alive_snakes[i].id == id {
                assert(first_index(s.take(i + 1), id) == i);
                proof {
                    lemma_first_index_prefix(s, id, i + 1);
                }
                return Some(i);
            }
            i += 1;
        }
        assert(s.take(s.len() as int) =~= s);
        None
    }

    /// The moves that keep the controlled agent's head on the board; empty once it is gone.
    pub fn on_board_moves(&self) -> (r: Vec<Move>)
        requires
            self@.wf(),
        ensures
            r@ == self@.on_board_moves(),
    {
        let i = match self.find(self.snake_id) {
            Some(i) => i,
            None => {
                return Vec::new();
            },
        };
        let ghost v = self@;
        let a = &self.alive_snakes[i];
        assert(a@ == v.alive[i as int]);
        let all = Move::all();
        let mut r: Vec<Move> = Vec::new();
        let mut d: usize = 0;
        while d < 4
            invariant
                v == self@,
                v.wf(),
                i < v.alive.len(),
                a@ == v.alive[i as int],
                all@ == Move::all_spec(),
                d <= 4,
                r@ == Move::all_spec().take(d as int).filter(
                    |m: Move| on_board(v.width, v.height, m.apply(v.alive[i as int].head)),
                ),
            decreases 4 - d,
        {
            proof {
                assert(Move::all_spec().take(d + 1) =~= Move::all_spec().take(d as int).push(all@[d as int]));
                Move::all_spec().take(d as int).lemma_filter_push(
                    all@[d as int],
                    |m: Move| on_board(v.width, v.height, m.apply(v.alive[i as int].head)),
                );
            }
            let p = all[d].to_point(&a.head);
            if p.x >= 0 && (p.x as i64) < self.width as i64 && p.y >= 0 && (p.y as i64) < self.height as i64 {
                r.push(all[d]);
            }
            d += 1;
        }
        assert(Move::all_spec().take(4) =~= Move::all_spec());
        r
    }

    /// The moves the controlled agent may make; empty once it is gone.
    pub fn allowed_moves(&self) -> (r: Vec<Move>)
        requires
            self@.wf(),
        ensures
            r@ == self@.allowed(),
    {
        match self.find(self.snake_id) {
            Some(i) => self.legal_moves(i),
            None => Vec::new(),
        }
    }

    /// Applies one rollout tick: alive agent `i` makes its policy move for `picks[i]`, then at
    /// most one food item spawns for `roll` and `choice`.
    pub fn rollout_tick(&mut self, picks: &Vec<u32>, roll: u32, choice: u32)
        requires
            old(self)@.wf(),
            old(self)@.can_step(),
            picks@.len() == old(self)@.alive.len(),
        ensures
            final(self)@ == old(self)@.tick(old(self)@.policy_moves(picks@)).spawn(roll as int, choice as int),
            final(self)@.wf(),
    {
        let ghost v = self@;
        let n = self.alive_snakes.len();
        let mut ms: Vec<Move> = Vec::new();
        let mut i: usize = 0;
        while i < n
            invariant
                self@ == v,
                v.wf(),
                n == v.alive.len(),
                picks@.len() == n,
                i <= n,
                ms@ == v.policy_moves(picks@).take(i as int),
            decreases n - i,
        {
            let m = self.policy_move(i, picks[i]);
            ms.push(m);
            assert(ms@ =~= v.policy_moves(picks@).take(i + 1));
            i += 1;
        }
        assert(ms@ =~= v.policy_moves(picks@));
        self.tick_with(&ms);
        self.spawn_food_with(roll, choice);
    }


    /// Whether `Simulation::new` accepts `state`.
    pub fn accepts(state: &GameState) -> (r: bool)
        ensures
            r == admissible(state),
    {
        if state.board.width > i32::MAX as u32 || state.board.height > i32::MAX as u32
            || state.game.ruleset.settings.hazard_damage_per_turn > i32::MAX as u32 {
            return false;
        }
        let mut i: usize = 0;
        while i < state.board.snakes.len()
            invariant
                i <= state.board.snakes@.len(),
                forall|q: int|
                    0 <= q < i ==> placed(
                        state.board.width as int,
                        state.board.height as int,
                        #[trigger] state.board.snakes@[q]@,
                    ),
            decreases state.board.snakes@.len() - i,
        {
            let a = &state.board.snakes[i];
            let (w, h) = (state.board.width, state.board.height);
            if a.body.len() == 0 || a.body[0] != a.head || a.health < 0 || a.head.x < 0 || a.head.y < 0
                || a.head.x as i64 >= w as i64 || a.head.y as i64 >= h as i64 {
                assert(!placed(w as int, h as int, state.board.snakes@[i as int]@));
                return false;
            }
            i += 1;
        }
        let snakes = &state.board.snakes;
        let ghost vs = views(snakes@);
        let mut a: usize = 0;
        while a < snakes.len()
            invariant
                vs == views(snakes@),
                vs == views(state.board.snakes@),
                a <= snakes@.len(),
                forall|x: int, y: int| 0 <= x < y < vs.len() && x < a ==> (#[trigger] vs[x]).id != (#[trigger] vs[y]).id,
            decreases snakes@.len() - a,
        {
            let mut b: usize = a + 1;
            while b < snakes.len()
                invariant
                    vs == views(snakes@),
                    vs == views(state.board.snakes@),
                    a < snakes@.len(),
                    a + 1 <= b <= snakes@.len(),
                    forall|x: int, y: int| 0 <= x < y < vs.len() && x < a ==> (#[trigger] vs[x]).id != (#[trigger] vs[y]).id,
                    forall|y: int| a < y < b ==> vs[a as int].id != (#[trigger] vs[y]).id,
                decreases snakes@.len() - b,
            {
                if snakes[a].id == snakes[b].id {
                    assert(!distinct_ids(vs)) by {
                        assert(vs[a as int].id == vs[b as int].id);
                    }
                    return false;
                }
                b += 1;
            }
            a += 1;
        }
        true
    }

    /// A simulation of the snapshot `state`: no agent has eaten on the previous tick.
    pub fn new(state: GameState) -> (r: Simulation)
        requires
            admissible(&state),
        ensures
            r@ == initial(&state),
            r@.wf(),
    {
        let ghost st = state;
        let n = state.board.snakes.len();
        let mut ate_food: Vec<bool> = Vec::new();
        let mut i: usize = 0;
        while i < n
            invariant
                i <= n,
                n == st.board.snakes@.len(),
                ate_food@ == Seq::new(i as nat, |q: int| false),
            decreases n - i,
        {
            ate_food.push(false);
            assert(ate_food@ =~= Seq::new((i + 1) as nat, |q: int| false));
            i += 1;
        }
        let r = Simulation {
            snake_id: state.you.id,
            turn: state.turn,
            height: state.board.height,
            width: state.board.width,
            alive_snakes: state.board.snakes,
            dead_snakes: Vec::new(),
            food: state.board.food,
            hazards: state.board.hazards,
            ate_food,
            rules: state.game.ruleset,
        };
        assert(r@.ate =~= initial(&st).ate);
        assert(r@.dead =~= initial(&st).dead);
        assert(r@ == initial(&st));
        r
    }

    /// A copy with the same content.
    pub fn duplicate(&self) -> (r: Simulation)
        ensures
            r@ == self@,
    {
        let r = Simulation {
            snake_id: self.snake_id,
            turn: self.turn,
            height: self.height,
            width: self.width,
            alive_snakes: copy_snakes(&self.alive_snakes),
            dead_snakes: copy_snakes(&self.dead_snakes),
            food: copy_points(&self.food),
            hazards: copy_points(&self.hazards),
            ate_food: self.ate_food.clone(),
            rules: self.rules,
        };
        assert(r.ate_food@ =~= self.ate_food@);
        r
    }

    /// The turn counter.
    pub fn turn(&self) -> (r: u32)
        ensures
            r == self@.turn,
    {
        self.turn
    }

    /// The alive agents.
    pub fn snakes(&self) -> (r: &Vec<Snake>)
        ensures
            views(r@) == self@.alive,
    {
        &self.alive_snakes
    }

    /// The eliminated agents, in order of elimination.
    pub fn dead_snakes(&self) -> (r: &Vec<Snake>)
        ensures
            views(r@) == self@.dead,
    {
        &self.dead_snakes
    }

    /// The food cells.
    pub fn food(&self) -> (r: &Vec<Point>)
        ensures
            r@ == self@.food,
    {
        &self.food
    }

    /// Whether one more tick fits the integer types.
    pub fn can_step(&self) -> (r: bool)
        ensures
            r == self@.can_step(),
    {
        if self.turn == u32::MAX {
            return false;
        }
        let mut i: usize = 0;
        while i < self.alive_snakes.len()
            invariant
                i <= self@.alive.len(),
                forall|q: int| 0 <= q < i ==> #[trigger] self@.alive[q].length < u32::MAX,
            decreases self@.alive.len() - i,
        {
            if self.alive_snakes[i].length == u32::MAX {
                assert(self@.alive[i as int].length == u32::MAX);
                return false;
            }
            i += 1;
        }
        true
    }

    fn has_dead(&self, id: SnakeID) -> (r: bool)
        ensures
            r == self@.has_dead(id),
    {
        let mut i: usize = 0;
        while i < self.dead_snakes.len()
            invariant
                i <= self@.dead.len(),
                forall|q: int| 0 <= q < i ==> #[trigger] self@.dead[q].id != id,
            decreases self@.dead.len() - i,
        {
            if self.dead_snakes[i].id == id {
                assert(self@.dead[i as int].id == id);
                return true;
            }
            i += 1;
        }
        false
    }

    /// Whether at most one agent is left or the controlled agent has been eliminated.
    pub fn is_over(&self) -> (r: bool)
        ensures
            r == self@.is_over(),
    {
        self.alive_snakes.len() <= 1 || self.has_dead(self.snake_id)
    }

    /// Whether the game is over with the controlled agent alive.
    pub fn did_win(&self) -> (r: bool)
        ensures
            r == self@.did_win(),
    {
        if !self.is_over() {
            return false;
        }
        let r = self.find(self.snake_id).is_some();
        proof {
            if r {
                let i = self@.index_of(self@.you);
                lemma_first_index_found(self@.alive, self@.you);
            } else {
                lemma_first_index_found(self@.alive, self@.you);
            }
        }
        r
    }

    /// Random values for the rollout policy, one per alive agent.
    fn draw_picks(&self) -> (r: Vec<u32>)
        ensures
            r@.len() == self@.alive.len(),
    {
        let mut r: Vec<u32> = Vec::new();
        let mut i: usize = 0;
        while i < self.alive_snakes.len()
            invariant
                i <= self@.alive.len(),
                r@.len() == i,
            decreases self@.alive.len() - i,
        {
            r.push(random_below(12));
            i += 1;
        }
        r
    }

    /// Applies one tick in which the controlled agent makes `move_` and every other agent
    /// its rollout choice; does nothing once the game is over.
    pub fn apply_move(&mut self, move_: &Move)
        requires
            old(self)@.wf(),
        ensures
            final(self)@.wf(),
            old(self)@.is_over() || !old(self)@.can_step() ==> final(self)@ == old(self)@,
            !old(self)@.is_over() && old(self)@.can_step() ==> exists|picks: Seq<u32>, roll: int, choice: int|
                picks.len() == old(self)@.alive.len() && final(self)@ == #[trigger] old(self)@.tick(
                    old(self)@.guided_moves(*move_, picks),
                ).spawn(roll, choice),
    {
        if self.is_over() || !self.can_step() {
            return;
        }
        let ghost v = self@;
        let picks = self.draw_picks();
        let n = self.alive_snakes.len();
        let mut ms: Vec<Move> = Vec::new();
        let mut i: usize = 0;
        while i < n
            invariant
                self@ == v,
                v.wf(),
                n == v.alive.len(),
                picks@.len() == n,
                i <= n,
                ms@ == v.guided_moves(*move_, picks@).take(i as int),
            decreases n - i,
        {
            let m = if self.alive_snakes[i].id == self.snake_id {
                *move_
            } else {
                self.policy_move(i, picks[i])
            };
            ms.push(m);
            assert(ms@ =~= v.guided_moves(*move_, picks@).take(i + 1));
            i += 1;
        }
        assert(ms@ =~= v.guided_moves(*move_, picks@));
        self.tick_with(&ms);
        let roll = random_below(100);
        let choice = random_below(u32::MAX);
        self.spawn_food_with(roll, choice);
        assert(self@ == v.tick(v.guided_moves(*move_, picks@)).spawn(roll as int, choice as int));
    }

    /// Plays random rollout ticks from a copy of this simulation, for at most `max_ticks`
    /// ticks, and tells whether the controlled agent won. A rollout cut short is no win.
    pub fn run_random_game(&self, max_ticks: u32) -> (r: bool)
        requires
            self@.wf(),
        ensures
            self@.is_over() ==> r == self@.did_win(),
            r ==> max_ticks > 0 || self@.did_win(),
            exists|k: nat, t: SimView|
                k <= max_ticks && #[trigger] self@.rolls_to(t, k) && r == t.did_win() && (t.is_over() || k
                    == max_ticks || !t.can_step()),
    {
        let mut sim = self.duplicate();
        let mut t: u32 = 0;
        proof {
            lemma_rolls_start(self@);
        }
        while t < max_ticks && !sim.is_over() && sim.can_step()
            invariant
                sim@.wf(),
                t <= max_ticks,
                self@.is_over() ==> sim@ == self@,
                t == 0 ==> sim@ == self@,
                self@.rolls_to(sim@, t as nat),
            decreases max_ticks - t,
        {
            let picks = sim.draw_picks();
            let roll = random_below(100);
            let choice = random_below(u32::MAX);
            let ghost before = sim@;
            assert(before.wf() && before.can_step() && !before.is_over());
            sim.rollout_tick(&picks, roll, choice);
            proof {
                assert(before.tick(before.policy_moves(picks@)).spawn(roll as int, choice as int) == sim@);
                assert(before.rollout_step(sim@));
                lemma_rolls_step(self@, before, sim@, t as nat);
            }
            t += 1;
        }
        let r = sim.did_win();
        assert(self@.rolls_to(sim@, t as nat));
        r
    }

    /// One rollout (see `run_random_game`) counted as 1 for a win and 0 otherwise.
    pub fn rollout_wins(&self, max_ticks: u32) -> (r: u32)
        requires
            self@.wf(),
        ensures
            r <= 1,
            self@.is_over() ==> (r == 1) == self@.did_win(),
            exists|k: nat, t: SimView|
                k <= max_ticks && #[trigger] self@.rolls_to(t, k) && (r == 1) == t.did_win() && (t.is_over() || k
                    == max_ticks || !t.can_step()),
    {
        if self.run_random_game(max_ticks) {
            1
        } else {
            0
        }
    }

}

} // verus!
