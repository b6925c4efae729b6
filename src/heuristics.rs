use crate::board::{on_board, Board};
use crate::moves::Move;
use crate::point::Point;
use crate::simulation::{body_hit, contains_point, distinct_ids, placed};
use crate::snake::{views, Snake};
use vstd::arithmetic::div_mod::lemma_fundamental_div_mod_converse;
use vstd::prelude::*;

verus! {

impl Board {
    /// Coordinates fit the integer types and every agent has a body starting at its head on the board.
    pub open spec fn wf(&self) -> bool {
        &&& self.width <= i32::MAX
        &&& self.height <= i32::MAX
        &&& forall|i: int|
            0 <= i < self.snakes@.len() ==> placed(
                self.width as int,
                self.height as int,
                #[trigger] self.snakes@[i]@,
            )
        &&& distinct_ids(views(self.snakes@))
    }

    /// Moving onto `p` collides with some agent's body (see `body_hit`).
    pub open spec fn snake_spec(&self, p: Point) -> bool {
        exists|i: int| 0 <= i < self.snakes@.len() && body_hit(#[trigger] self.snakes@[i]@, self.food@, p)
    }

    /// Another agent at least as long as `you` could move its head onto `p`.
    pub open spec fn snake_move_spec(&self, you: &Snake, p: Point) -> bool {
        exists|i: int|
            0 <= i < self.snakes@.len() && (#[trigger] self.snakes@[i]).id != you.id
                && self.snakes@[i].head.neighbors_spec().contains(p) && you.length <= self.snakes@[i].length
    }

    /// `p` is off the board, collides with a body, or may be taken by a longer head.
    pub open spec fn unsafe_spec(&self, you: &Snake, p: Point) -> bool {
        !self.contains_spec(p) || self.snake_spec(p) || self.snake_move_spec(you, p)
    }

    /// Whether moving onto `point` collides with some agent's body. A tail is passable
    /// unless its agent is shorter than 3 or has food next to its head.
    pub fn is_snake(&self, point: &Point) -> (r: bool)
        requires
            self.wf(),
        ensures
            r == self.snake_spec(*point),
    {
        let mut i: usize = 0;
        while i < self.snakes.len()
            invariant
                self.wf(),
                i <= self.snakes@.len(),
                forall|q: int| 0 <= q < i ==> !body_hit(#[trigger] self.snakes@[q]@, self.food@, *point),
            decreases self.snakes@.len() - i,
        {
            assert(placed(self.width as int, self.height as int, self.snakes@[i as int]@));
            if crate::simulation::hits_body(&self.snakes[i], &self.food, *point) {
                return true;
            }
            i += 1;
        }
        false
    }

    /// Whether another agent at least as long as `you` could move its head onto `point`.
    pub fn is_snake_move(&self, you: &Snake, point: &Point) -> (r: bool)
        requires
            self.wf(),
        ensures
            r == self.snake_move_spec(you, *point),
    {
        let mut i: usize = 0;
        while i < self.snakes.len()
            invariant
                self.wf(),
                i <= self.snakes@.len(),
                forall|q: int|
                    0 <= q < i ==> !((#[trigger] self.snakes@[q]).id != you.id
                        && self.snakes@[q].head.neighbors_spec().contains(*point) && you.length
                        <= self.snakes@[q].length),
            decreases self.snakes@.len() - i,
        {
            let s = &self.snakes[i];
            assert(placed(self.width as int, self.height as int, self.snakes@[i as int]@));
            if s.id != you.id && you.length <= s.length {
                let around = s.head.neighbors();
                if contains_point(&around, *point) {
                    return true;
                }
            }
            i += 1;
        }
        false
    }

    /// Whether `point` is unsafe for `you`: off the board, in a body, or a possible head of a
    /// longer agent.
    pub fn is_unsafe(&self, you: &Snake, point: &Point) -> (r: bool)
        requires
            self.wf(),
        ensures
            r == self.unsafe_spec(you, *point),
    {
        !self.is_on_board(point) || self.is_snake(point) || self.is_snake_move(you, point)
    }

    /// Whether `point` is a hazard cell or a possible head of a longer agent.
    pub fn is_hazard(&self, you: &Snake, point: &Point) -> (r: bool)
        requires
            self.wf(),
        ensures
            r == (self.hazards@.contains(*point) || self.snake_move_spec(you, *point)),
    {
        contains_point(&self.hazards, *point) || self.is_snake_move(you, point)
    }

    /// The neighbours of `point` that are safe for `you`, in the order up, down, left, right.
    pub fn safe_neighbors(&self, you: &Snake, point: &Point) -> (r: Vec<Point>)
        requires
            self.wf(),
            point.steppable(),
        ensures
            r@ == point.neighbors_spec().filter(|p: Point| !self.unsafe_spec(you, p)),
    {
        let all = point.neighbors();
        let mut r: Vec<Point> = Vec::new();
        let mut i: usize = 0;
        while i < all.len()
            invariant
                self.wf(),
                all@ == point.neighbors_spec(),
                i <= all@.len(),
                r@ == all@.take(i as int).filter(|p: Point| !self.unsafe_spec(you, p)),
            decreases all@.len() - i,
        {
            proof {
                assert(all@.take(i + 1) =~= all@.take(i as int).push(all@[i as int]));
                all@.take(i as int).lemma_filter_push(all@[i as int], |p: Point| !self.unsafe_spec(you, p));
            }
            if !self.is_unsafe(you, &all[i]) {
                r.push(all[i]);
            }
            i += 1;
        }
        assert(all@.take(all@.len() as int) =~= all@);
        r
    }

    /// The moves that take the head of `you` to a safe cell, in the order up, down, left, right.
    pub fn safe_moves(&self, you: &Snake) -> (r: Vec<Move>)
        requires
            self.wf(),
            you.head.steppable(),
        ensures
            r@ == Move::all_spec().filter(|m: Move| !self.unsafe_spec(you, m.apply(you.head))),
    {
        let all = Move::all();
        let mut r: Vec<Move> = Vec::new();
        let mut i: usize = 0;
        while i < 4
            invariant
                self.wf(),
                you.head.steppable(),
                all@ == Move::all_spec(),
                i <= 4,
                r@ == Move::all_spec().take(i as int).filter(|m: Move| !self.unsafe_spec(you, m.apply(you.head))),
            decreases 4 - i,
        {
            proof {
                assert(Move::all_spec().take(i + 1) =~= Move::all_spec().take(i as int).push(all@[i as int]));
                Move::all_spec().take(i as int).lemma_filter_push(
                    all@[i as int],
                    |m: Move| !self.unsafe_spec(you, m.apply(you.head)),
                );
            }
            let p = all[i].to_point(&you.head);
            if !self.is_unsafe(you, &p) {
                r.push(all[i]);
            }
            i += 1;
        }
        assert(Move::all_spec().take(4) =~= Move::all_spec());
        r
    }

    /// The moves of `you` that do not turn back onto its neck (its second body cell).
    pub fn forward_moves(&self, you: &Snake) -> (r: Vec<Move>)
        requires
            you.body@.len() >= 2,
            you.head.steppable(),
        ensures
            r@ == Move::all_spec().filter(|m: Move| m.apply(you.head) != you.body@[1]),
    {
        let all = Move::all();
        let neck = you.body[1];
        let mut r: Vec<Move> = Vec::new();
        let mut i: usize = 0;
        while i < 4
            invariant
                you.head.steppable(),
                you.body@.len() >= 2,
                neck == you.body@[1],
                all@ == Move::all_spec(),
                i <= 4,
                r@ == Move::all_spec().take(i as int).filter(|m: Move| m.apply(you.head) != you.body@[1]),
            decreases 4 - i,
        {
            proof {
                assert(Move::all_spec().take(i + 1) =~= Move::all_spec().take(i as int).push(all@[i as int]));
                Move::all_spec().take(i as int).lemma_filter_push(
                    all@[i as int],
                    |m: Move| m.apply(you.head) != you.body@[1],
                );
            }
            if all[i].to_point(&you.head) != neck {
                r.push(all[i]);
            }
            i += 1;
        }
        assert(Move::all_spec().take(4) =~= Move::all_spec());
        r
    }
}

impl Board {
    /// The board cells in row-major order.
    pub open spec fn cells_spec(&self) -> Seq<Point> {
        Seq::new((self.width * self.height) as nat, |k: int| Point::at(k % self.width as int, k / self.width as int))
    }

    /// Every agent other than `you` has its head strictly farther from `p` than `head` is.
    pub open spec fn closer_spec(&self, you: &Snake, head: Point, p: Point) -> bool {
        forall|i: int|
            0 <= i < self.snakes@.len() && (#[trigger] self.snakes@[i]).id != you.id ==> head.distance_spec(p)
                < self.snakes@[i].head.distance_spec(p)
    }

    /// `q` can be reached from `p` in at most `n` steps through cells safe for `you`.
    pub open spec fn reach(&self, you: &Snake, p: Point, q: Point, n: nat) -> bool
        decreases n,
    {
        &&& !self.unsafe_spec(you, q)
        &&& (q == p || (n > 0 && exists|d: int|
            0 <= d < 4 && self.reach(you, p, #[trigger] q.neighbors_spec()[d], (n - 1) as nat)))
    }

    pub open spec fn reachable(&self, you: &Snake, p: Point, q: Point) -> bool {
        exists|n: nat| #[trigger] self.reach(you, p, q, n)
    }

    /// The board cells in row-major order.
    fn board_cells(&self) -> (r: Vec<Point>)
        requires
            self.width <= i32::MAX,
            self.height <= i32::MAX,
        ensures
            r@ == self.cells_spec(),
    {
        let w = self.width as u64;
        let hh = self.height as u64;
        assert(w * hh <= 0x4000_0000_0000_0000) by (nonlinear_arith)
            requires
                w <= 0x7fff_ffff,
                hh <= 0x7fff_ffff,
        ;
        let total: u64 = w * hh;
        let mut r: Vec<Point> = Vec::new();
        let mut k: u64 = 0;
        while k < total
            invariant
                w == self.width,
                hh == self.height,
                w <= i32::MAX,
                hh <= i32::MAX,
                total == w * hh,
                k <= total,
                r@ == self.cells_spec().take(k as int),
            decreases total - k,
        {
            assert(w > 0) by (nonlinear_arith)
                requires
                    k < w * hh,
            ;
            assert(k / w < hh) by (nonlinear_arith)
                requires
                    k < w * hh,
                    w > 0,
            ;
            let p = Point { x: (k % w) as i32, y: (k / w) as i32 };
            r.push(p);
            assert(r@ =~= self.cells_spec().take(k + 1));
            k += 1;
        }
        assert(self.cells_spec().take(total as int) =~= self.cells_spec());
        r
    }

    /// Every on-board cell appears among the board cells.
    proof fn lemma_cell_index(&self, q: Point)
        requires
            self.contains_spec(q),
        ensures
            exists|k: int| 0 <= k < self.cells_spec().len() && #[trigger] self.cells_spec()[k] == q,
            0 <= q.y * self.width + q.x < self.cells_spec().len(),
            self.cells_spec()[q.y * self.width + q.x] == q,
    {
        let w = self.width as int;
        let h = self.height as int;
        let k = q.y * w + q.x;
        lemma_fundamental_div_mod_converse(k, w, q.y as int, q.x as int);
        assert(k < w * h) by (nonlinear_arith)
            requires
                k == q.y * w + q.x,
                0 <= q.x < w,
                0 <= q.y < h,
        ;
        assert(k >= 0) by (nonlinear_arith)
            requires
                k == q.y * w + q.x,
                0 <= q.x,
                0 <= q.y,
                w >= 0,
        ;
        assert(self.cells_spec()[k] == q);
    }

    /// The number of board cells strictly closer to `head` than to the head of any agent other
    /// than `you`.
    pub fn area_control(&self, you: &Snake, head: &Point) -> (r: u32)
        requires
            self.wf(),
            self.contains_spec(*head),
            self.width * self.height <= u32::MAX,
        ensures
            r == self.cells_spec().filter(|p: Point| self.closer_spec(you, *head, p)).len(),
    {
        let cells = self.board_cells();
        let mut count: u32 = 0;
        let mut k: usize = 0;
        while k < cells.len()
            invariant
                self.wf(),
                self.contains_spec(*head),
                cells@ == self.cells_spec(),
                cells@.len() <= u32::MAX,
                k <= cells@.len(),
                count == cells@.take(k as int).filter(|p: Point| self.closer_spec(you, *head, p)).len(),
                count <= k,
            decreases cells@.len() - k,
        {
            proof {
                assert(cells@.take(k + 1) =~= cells@.take(k as int).push(cells@[k as int]));
                cells@.take(k as int).lemma_filter_push(cells@[k as int], |p: Point| self.closer_spec(you, *head, p));
            }
            let p = cells[k];
            assert(self.contains_spec(p)) by {
                let w = self.width as int;
                let ki = k as int;
                assert(w > 0) by (nonlinear_arith)
                    requires
                        ki < w * self.height,
                        ki >= 0,
                ;
                assert(0 <= ki % w < w);
                assert(ki / w < self.height as int) by (nonlinear_arith)
                    requires
                        ki < w * self.height,
                        w > 0,
                        ki >= 0,
                ;
            }
            let mine = p.distance(head);
            let mut closer = true;
            let mut i: usize = 0;
            while i < self.snakes.len()
                invariant
                    self.wf(),
                    self.contains_spec(p),
                    self.contains_spec(*head),
                    mine == head.distance_spec(p),
                    i <= self.snakes@.len(),
                    closer <==> forall|q: int|
                        0 <= q < i && (#[trigger] self.snakes@[q]).id != you.id ==> head.distance_spec(p)
                            < self.snakes@[q].head.distance_spec(p),
                decreases self.snakes@.len() - i,
            {
                let s = &self.snakes[i];
                assert(placed(self.width as int, self.height as int, self.snakes@[i as int]@));
                if s.id != you.id {
                    let theirs = s.head.distance(&p);
                    if !(mine < theirs) {
                        closer = false;
                    }
                }
                i += 1;
            }
            if closer {
                count = count + 1;
            }
            k += 1;
        }
        assert(cells@.take(cells@.len() as int) =~= cells@);
        count
    }
}

/// The number of `false` entries of `s`.
pub open spec fn count_false(s: Seq<bool>) -> nat
    decreases s.len(),
{
    if s.len() == 0 {
        0
    } else {
        count_false(s.drop_last()) + if s.last() {
            0nat
        } else {
            1nat
        }
    }
}

proof fn lemma_count_false_set(s: Seq<bool>, k: int)
    requires
        0 <= k < s.len(),
        !s[k],
    ensures
        count_false(s.update(k, true)) == count_false(s) - 1,
    decreases s.len(),
{
    if k == s.len() - 1 {
        assert(s.update(k, true).drop_last() =~= s.drop_last());
    } else {
        assert(s.update(k, true).drop_last() =~= s.drop_last().update(k, true));
        lemma_count_false_set(s.drop_last(), k);
    }
}

/// Some cell marked in `marks` is a neighbour of `q`.
pub open spec fn marked_neighbor(cells: Seq<Point>, marks: Seq<bool>, q: Point) -> bool {
    exists|j: int| #![trigger marks[j]] 0 <= j < cells.len() && marks[j] && q.neighbors_spec().contains(cells[j])
}

/// Whether some cell marked in `marks` is a neighbour of `q`.
fn has_marked_neighbor(cells: &Vec<Point>, marks: &Vec<bool>, q: Point) -> (r: bool)
    requires
        q.steppable(),
        marks@.len() == cells@.len(),
    ensures
        r == marked_neighbor(cells@, marks@, q),
{
    let around = q.neighbors();
    let mut j: usize = 0;
    while j < cells.len()
        invariant
            around@ == q.neighbors_spec(),
            marks@.len() == cells@.len(),
            j <= cells@.len(),
            forall|i: int| #![trigger marks@[i]] 0 <= i < j ==> !(marks@[i] && q.neighbors_spec().contains(cells@[i])),
        decreases cells@.len() - j,
    {
        if marks[j] && contains_point(&around, cells[j]) {
            return true;
        }
        j += 1;
    }
    false
}

impl Board {
    proof fn lemma_flood_complete(&self, you: &Snake, p: Point, cells: Seq<Point>, marks: Seq<bool>, q: Point, n: nat)
        requires
            cells == self.cells_spec(),
            marks.len() == cells.len(),
            forall|j: int|
                #![trigger marks[j]]
                0 <= j < cells.len() && !marks[j] ==> !(!self.unsafe_spec(you, cells[j]) && marked_neighbor(
                    cells,
                    marks,
                    cells[j],
                )),
            forall|j: int| #![trigger marks[j]] 0 <= j < cells.len() && cells[j] == p && !self.unsafe_spec(you, p) ==> marks[j],
            self.reach(you, p, q, n),
        ensures
            forall|k: int| #![trigger marks[k]] 0 <= k < cells.len() && cells[k] == q ==> marks[k],
        decreases n,
    {
        if q != p {
            let d = choose|d: int| 0 <= d < 4 && self.reach(you, p, #[trigger] q.neighbors_spec()[d], (n - 1) as nat);
            let r = q.neighbors_spec()[d];
            self.lemma_cell_index(r);
            let j = choose|j: int| 0 <= j < self.cells_spec().len() && #[trigger] self.cells_spec()[j] == r;
            self.lemma_flood_complete(you, p, cells, marks, r, (n - 1) as nat);
            assert(marks[j]);
            assert(q.neighbors_spec().contains(cells[j]));
            assert forall|k: int| #![trigger marks[k]] 0 <= k < cells.len() && cells[k] == q implies marks[k] by {
                assert(marked_neighbor(cells, marks, cells[k]));
            }
        }
    }

    /// The board cells, each marked when reachable from `point` through cells safe for `you`.
    fn flood_marks(&self, you: &Snake, point: &Point) -> (r: (Vec<Point>, Vec<bool>))
        requires
            self.wf(),
        ensures
            r.0@ == self.cells_spec(),
            r.1@.len() == r.0@.len(),
            forall|k: int| #![trigger r.1@[k]] 0 <= k < r.0@.len() ==> (r.1@[k] <==> self.reachable(you, *point, r.0@[k])),
    {
        let cells = self.board_cells();
        let ghost cs = cells@;
        let n = cells.len();
        let start_ok = !self.is_unsafe(you, point);
        let mut marks: Vec<bool> = Vec::new();
        let mut k: usize = 0;
        while k < n
            invariant
                n == cs.len(),
                cells@ == cs,
                k <= n,
                start_ok == !self.unsafe_spec(you, *point),
                marks@ == Seq::new(k as nat, |j: int| start_ok && cs[j] == *point),
            decreases n - k,
        {
            marks.push(start_ok && cells[k] == *point);
            assert(marks@ =~= Seq::new((k + 1) as nat, |j: int| start_ok && cs[j] == *point));
            k += 1;
        }
        proof {
            assert forall|j: int| #![trigger marks@[j]] 0 <= j < n && marks@[j] implies self.reachable(you, *point, cs[j]) by {
                assert(self.reach(you, *point, cs[j], 0));
            }
        }
        loop
            invariant
                self.wf(),
                cs == self.cells_spec(),
                cells@ == cs,
                n == cs.len(),
                marks@.len() == n,
                forall|j: int| #![trigger marks@[j]] 0 <= j < n && marks@[j] ==> self.reachable(you, *point, cs[j]),
                forall|j: int|
                    #![trigger marks@[j]]
                    0 <= j < n && cs[j] == *point && !self.unsafe_spec(you, *point) ==> marks@[j],
            ensures
                marks@.len() == n,
                forall|j: int| #![trigger marks@[j]] 0 <= j < n && marks@[j] ==> self.reachable(you, *point, cs[j]),
                forall|j: int|
                    #![trigger marks@[j]]
                    0 <= j < n && cs[j] == *point && !self.unsafe_spec(you, *point) ==> marks@[j],
                forall|j: int|
                    #![trigger marks@[j]]
                    0 <= j < n && !marks@[j] ==> !(!self.unsafe_spec(you, cs[j]) && marked_neighbor(cs, marks@, cs[j])),
            decreases count_false(marks@),
        {
            let ghost before = marks@;
            let mut changed = false;
            let mut k: usize = 0;
            while k < n
                invariant
                    self.wf(),
                    cs == self.cells_spec(),
                    cells@ == cs,
                    n == cs.len(),
                    marks@.len() == n,
                    before.len() == n,
                    k <= n,
                    forall|j: int| #![trigger marks@[j]] 0 <= j < n && marks@[j] ==> self.reachable(you, *point, cs[j]),
                    forall|j: int|
                        #![trigger marks@[j]]
                        0 <= j < n && cs[j] == *point && !self.unsafe_spec(you, *point) ==> marks@[j],
                    changed ==> count_false(marks@) < count_false(before),
                    !changed ==> marks@ == before,
                    !changed ==> forall|j: int|
                        #![trigger marks@[j]]
                        0 <= j < k && !marks@[j] ==> !(!self.unsafe_spec(you, cs[j]) && marked_neighbor(cs, marks@, cs[j])),
                    forall|j: int| #![trigger marks@[j]] 0 <= j < n && before[j] ==> marks@[j],
                decreases n - k,
            {
                if !marks[k] {
                    let q = cells[k];
                    assert(self.contains_spec(q)) by {
                        let w = self.width as int;
                        let ki = k as int;
                        assert(w > 0) by (nonlinear_arith)
                            requires
                                ki < w * self.height,
                                ki >= 0,
                        ;
                        assert(ki / w < self.height as int) by (nonlinear_arith)
                            requires
                                ki < w * self.height,
                                w > 0,
                                ki >= 0,
                        ;
                    }
                    if !self.is_unsafe(you, &q) && has_marked_neighbor(&cells, &marks, q) {
                        proof {
                            let j = choose|j: int| #![trigger marks@[j]] 0 <= j < cs.len() && marks@[j] && q.neighbors_spec().contains(cs[j]);
                            let m = choose|m: nat| #[trigger] self.reach(you, *point, cs[j], m);
                            let d = choose|d: int| 0 <= d < 4 && q.neighbors_spec()[d] == cs[j];
                            assert(self.reach(you, *point, q.neighbors_spec()[d], m));
                            assert(self.reach(you, *point, q, m + 1));
                            lemma_count_false_set(marks@, k as int);
                            if changed {
                                lemma_count_false_set(marks@, k as int);
                            }
                        }
                        let ghost prev = marks@;
                        marks.set(k, true);
                        assert(marks@ == prev.update(k as int, true));
                        changed = true;
                    }
                }
                k += 1;
            }
            if !changed {
                break;
            }
        }
        proof {
            assert forall|k: int| #![trigger marks@[k]] 0 <= k < n implies (marks@[k] <==> self.reachable(you, *point, cs[k])) by {
                if self.reachable(you, *point, cs[k]) {
                    let m = choose|m: nat| #[trigger] self.reach(you, *point, cs[k], m);
                    self.lemma_flood_complete(you, *point, cs, marks@, cs[k], m);
                }
            }
        }
        (cells, marks)
    }

    /// The number of cells reachable from `point` through cells safe for `you`, and how many
    /// of them hold food.
    pub fn floodfill(&self, you: &Snake, point: &Point) -> (r: (u32, u32))
        requires
            self.wf(),
            self.width * self.height <= u32::MAX,
        ensures
            r.0 == self.cells_spec().filter(|q: Point| self.reachable(you, *point, q)).len(),
            r.1 == self.cells_spec().filter(|q: Point| self.reachable(you, *point, q) && self.food@.contains(q)).len(),
    {
        let (cells, marks) = self.flood_marks(you, point);
        let ghost cs = cells@;
        let mut filled: u32 = 0;
        let mut foods: u32 = 0;
        let mut k: usize = 0;
        while k < cells.len()
            invariant
                cs == cells@,
                cs == self.cells_spec(),
                cs.len() <= u32::MAX,
                marks@.len() == cs.len(),
                forall|j: int| #![trigger marks@[j]] 0 <= j < cs.len() ==> (marks@[j] <==> self.reachable(you, *point, cs[j])),
                k <= cs.len(),
                filled == cs.take(k as int).filter(|q: Point| self.reachable(you, *point, q)).len(),
                foods == cs.take(k as int).filter(|q: Point| self.reachable(you, *point, q) && self.food@.contains(q)).len(),
                filled <= k,
                foods <= k,
            decreases cs.len() - k,
        {
            proof {
                assert(cs.take(k + 1) =~= cs.take(k as int).push(cs[k as int]));
                cs.take(k as int).lemma_filter_push(cs[k as int], |q: Point| self.reachable(you, *point, q));
                cs.take(k as int).lemma_filter_push(
                    cs[k as int],
                    |q: Point| self.reachable(you, *point, q) && self.food@.contains(q),
                );
            }
            assert(marks@[k as int] == self.reachable(you, *point, cs[k as int]));
            if marks[k] {
                filled = filled + 1;
                if contains_point(&self.food, cells[k]) {
                    foods = foods + 1;
                }
            }
            k += 1;
        }
        assert(cs.take(cs.len() as int) =~= cs);
        (filled, foods)
    }
}

impl Board {
    /// The number of cells reachable from `p` through cells safe for `you`.
    pub open spec fn fill_spec(&self, you: &Snake, p: Point) -> int {
        self.cells_spec().filter(|q: Point| self.reachable(you, p, q)).len() as int
    }

    /// The number of food cells among them.
    pub open spec fn fill_food_spec(&self, you: &Snake, p: Point) -> int {
        self.cells_spec().filter(|q: Point| self.reachable(you, p, q) && self.food@.contains(q)).len() as int
    }

    /// After move `m`, the space `you` can reach, less the food in it, is shorter than `you`.
    pub open spec fn trapped(&self, you: &Snake, m: Move) -> bool {
        let p = m.apply(you.head);
        self.fill_spec(you, p) - self.fill_food_spec(you, p) < you.length
    }

    /// No move of `moves` leads to more reachable space than `m`.
    pub open spec fn roomiest(&self, you: &Snake, moves: Seq<Move>, m: Move) -> bool {
        forall|i: int|
            0 <= i < moves.len() ==> self.fill_spec(you, (#[trigger] moves[i]).apply(you.head)) <= self.fill_spec(
                you,
                m.apply(you.head),
            )
    }

    /// The moves of `moves` that do not trap `you` in a space shorter than itself; when every
    /// move does, those that lead to the most space.
    pub fn snake_non_trapping_moves(&self, you: &Snake, moves: &Vec<Move>) -> (r: Vec<Move>)
        requires
            self.wf(),
            self.width * self.height <= u32::MAX,
            you.head.steppable(),
        ensures
            (exists|i: int| 0 <= i < moves@.len() && !self.trapped(you, #[trigger] moves@[i])) ==> r@
                == moves@.filter(|m: Move| !self.trapped(you, m)),
            !(exists|i: int| 0 <= i < moves@.len() && !self.trapped(you, #[trigger] moves@[i])) ==> r@
                == moves@.filter(|m: Move| self.roomiest(you, moves@, m)),
    {
        let n = moves.len();
        let mut fills: Vec<u32> = Vec::new();
        let mut free: Vec<bool> = Vec::new();
        let mut largest: u32 = 0;
        let mut i: usize = 0;
        while i < n
            invariant
                self.wf(),
                self.width * self.height <= u32::MAX,
                you.head.steppable(),
                n == moves@.len(),
                i <= n,
                fills@.len() == i,
                free@.len() == i,
                forall|j: int| 0 <= j < i ==> #[trigger] fills@[j] == self.fill_spec(you, moves@[j].apply(you.head)),
                forall|j: int| 0 <= j < i ==> #[trigger] free@[j] == !self.trapped(you, moves@[j]),
                forall|j: int| 0 <= j < i ==> fills@[j] <= largest,
                i > 0 ==> exists|j: int| 0 <= j < i && fills@[j] == largest,
                i == 0 ==> largest == 0,
            decreases n - i,
        {
            let p = moves[i].to_point(&you.head);
            let (filled, foods) = self.floodfill(you, &p);
            proof {
                let cs = self.cells_spec();
                let all = |q: Point| self.reachable(you, p, q);
                let fed = |q: Point| self.reachable(you, p, q) && self.food@.contains(q);
                lemma_filter_len_le(cs, all, fed);
            }
            let ghost prev_fills = fills@;
            let ghost prev_largest = largest;
            fills.push(filled);
            free.push(filled - foods >= you.length);
            if filled > largest {
                largest = filled;
            }
            proof {
                if filled as int == largest as int {
                    assert(fills@[i as int] == largest);
                } else {
                    let j = choose|j: int| 0 <= j < i && prev_fills[j] == prev_largest;
                    assert(fills@[j] == largest);
                }
            }
            i += 1;
        }
        let mut any_free = false;
        i = 0;
        while i < n
            invariant
                n == moves@.len(),
                free@.len() == n,
                i <= n,
                any_free <==> exists|j: int| 0 <= j < i && free@[j],
            decreases n - i,
        {
            if free[i] {
                any_free = true;
            }
            i += 1;
        }
        let ghost keep = if any_free {
            |m: Move| !self.trapped(you, m)
        } else {
            |m: Move| self.roomiest(you, moves@, m)
        };
        proof {
            if !any_free {
                assert forall|i: int| 0 <= i < moves@.len() implies !(!self.trapped(you, #[trigger] moves@[i])) by {
                    assert(!free@[i]);
                }
            } else {
                let j = choose|j: int| 0 <= j < n && free@[j];
                assert(!self.trapped(you, moves@[j]));
            }
        }
        let mut r: Vec<Move> = Vec::new();
        i = 0;
        while i < n
            invariant
                n == moves@.len(),
                fills@.len() == n,
                free@.len() == n,
                i <= n,
                forall|j: int| 0 <= j < n ==> #[trigger] fills@[j] == self.fill_spec(you, moves@[j].apply(you.head)),
                forall|j: int| 0 <= j < n ==> #[trigger] free@[j] == !self.trapped(you, moves@[j]),
                forall|j: int| 0 <= j < n ==> fills@[j] <= largest,
                n > 0 ==> exists|j: int| 0 <= j < n && fills@[j] == largest,
                keep == (if any_free {
                    |m: Move| !self.trapped(you, m)
                } else {
                    |m: Move| self.roomiest(you, moves@, m)
                }),
                r@ == moves@.take(i as int).filter(keep),
            decreases n - i,
        {
            proof {
                assert(moves@.take(i + 1) =~= moves@.take(i as int).push(moves@[i as int]));
                moves@.take(i as int).lemma_filter_push(moves@[i as int], keep);
                if !any_free {
                    let m = moves@[i as int];
                    if fills@[i as int] == largest {
                        assert forall|q: int| 0 <= q < moves@.len() implies self.fill_spec(
                            you,
                            (#[trigger] moves@[q]).apply(you.head),
                        ) <= self.fill_spec(you, m.apply(you.head)) by {
                            assert(fills@[q] <= largest);
                        }
                    } else {
                        let j = choose|j: int| 0 <= j < n && fills@[j] == largest;
                        assert(self.fill_spec(you, moves@[j].apply(you.head)) > self.fill_spec(you, m.apply(you.head)));
                        assert(!self.roomiest(you, moves@, m));
                    }
                }
            }
            let take = if any_free {
                free[i]
            } else {
                fills[i] == largest
            };
            if take {
                r.push(moves[i]);
            }
            i += 1;
        }
        assert(moves@.take(n as int) =~= moves@);
        r
    }

    /// A longer agent other than `you` could move its head onto `p`.
    pub open spec fn longer_head_near(&self, you: &Snake, p: Point) -> bool {
        exists|i: int|
            0 <= i < self.snakes@.len() && (#[trigger] self.snakes@[i]).id != you.id && self.snakes@[i].length
                > you.length && self.snakes@[i].head.neighbors_spec().filter(|q: Point| self.contains_spec(q)).contains(p)
    }

    /// The moves of `moves` whose cell no longer agent other than `you` could move its head onto.
    pub fn snake_head_avoiding_moves(&self, you: &Snake, moves: &Vec<Move>) -> (r: Vec<Move>)
        requires
            self.wf(),
            you.head.steppable(),
        ensures
            r@ == moves@.filter(|m: Move| !self.longer_head_near(you, m.apply(you.head))),
    {
        let mut r: Vec<Move> = Vec::new();
        let mut i: usize = 0;
        while i < moves.len()
            invariant
                self.wf(),
                you.head.steppable(),
                i <= moves@.len(),
                r@ == moves@.take(i as int).filter(|m: Move| !self.longer_head_near(you, m.apply(you.head))),
            decreases moves@.len() - i,
        {
            proof {
                assert(moves@.take(i + 1) =~= moves@.take(i as int).push(moves@[i as int]));
                moves@.take(i as int).lemma_filter_push(
                    moves@[i as int],
                    |m: Move| !self.longer_head_near(you, m.apply(you.head)),
                );
            }
            let p = moves[i].to_point(&you.head);
            let mut near = false;
            let mut j: usize = 0;
            while j < self.snakes.len()
                invariant
                    self.wf(),
                    j <= self.snakes@.len(),
                    near <==> exists|q: int|
                        0 <= q < j && (#[trigger] self.snakes@[q]).id != you.id && self.snakes@[q].length > you.length
                            && self.snakes@[q].head.neighbors_spec().filter(|c: Point| self.contains_spec(c)).contains(p),
                decreases self.snakes@.len() - j,
            {
                let s = &self.snakes[j];
                assert(placed(self.width as int, self.height as int, self.snakes@[j as int]@));
                if s.id != you.id && s.length > you.length {
                    let around = self.neighbors(&s.head);
                    if contains_point(&around, p) {
                        near = true;
                    }
                }
                j += 1;
            }
            if !near {
                r.push(moves[i]);
            }
            i += 1;
        }
        assert(moves@.take(moves@.len() as int) =~= moves@);
        r
    }
}

/// Filtering by a stronger predicate keeps no more elements.
proof fn lemma_filter_len_le(s: Seq<Point>, weak: spec_fn(Point) -> bool, strong: spec_fn(Point) -> bool)
    requires
        forall|p: Point| #[trigger] strong(p) ==> weak(p),
    ensures
        s.filter(strong).len() <= s.filter(weak).len(),
    decreases s.len(),
{
    reveal(Seq::filter);
    if s.len() > 0 {
        lemma_filter_len_le(s.drop_last(), weak, strong);
    }
}

proof fn lemma_count_false_le(s: Seq<bool>)
    ensures
        count_false(s) <= s.len(),
    decreases s.len(),
{
    if s.len() > 0 {
        lemma_count_false_le(s.drop_last());
    }
}

/// Largest step cost of the path search.
pub const MAX_STEP_COST: u64 = 16;

impl Board {
    /// Some agent other than `you` has its head next to `p`.
    pub open spec fn near_other_head(&self, you: &Snake, p: Point) -> bool {
        exists|i: int|
            0 <= i < self.snakes@.len() && (#[trigger] self.snakes@[i]).id != you.id
                && self.snakes@[i].head.neighbors_spec().contains(p)
    }

    /// The cost of stepping onto `p`: 0 on food, 3 next to another head, 16 on a hazard
    /// or a possible head of a longer agent, 1 elsewhere.
    pub open spec fn step_cost(&self, you: &Snake, p: Point) -> u64 {
        if self.food@.contains(p) {
            0
        } else if self.near_other_head(you, p) {
            3
        } else if self.hazards@.contains(p) || self.snake_move_spec(you, p) {
            16
        } else {
            1
        }
    }

    /// `q` is `p`, or is reached from `p` in at most `n` steps onto cells safe for `you`.
    pub open spec fn path_reach(&self, you: &Snake, p: Point, q: Point, n: nat) -> bool
        decreases n,
    {
        q == p || (n > 0 && !self.unsafe_spec(you, q) && exists|d: int|
            0 <= d < 4 && self.path_reach(you, p, #[trigger] q.neighbors_spec()[d], (n - 1) as nat))
    }

    /// `path` leads from `start` to one of `ends` by orthogonal steps onto cells safe for `you`.
    pub open spec fn is_path(&self, you: &Snake, start: Point, ends: Seq<Point>, path: Seq<Point>) -> bool {
        &&& path.len() > 0
        &&& path[0] == start
        &&& ends.contains(path.last())
        &&& forall|i: int| 0 <= i < path.len() - 1 ==> (#[trigger] path[i]).neighbors_spec().contains(path[i + 1])
        &&& forall|i: int| 1 <= i < path.len() ==> !self.unsafe_spec(you, #[trigger] path[i])
    }

    /// The cost of stepping onto `point` (see `step_cost`).
    pub fn g_score(&self, you: &Snake, point: &Point) -> (r: u64)
        requires
            self.wf(),
        ensures
            r == self.step_cost(you, *point),
    {
        if contains_point(&self.food, *point) {
            return 0;
        }
        let mut i: usize = 0;
        while i < self.snakes.len()
            invariant
                self.wf(),
                !self.food@.contains(*point),
                i <= self.snakes@.len(),
                forall|q: int|
                    0 <= q < i ==> !((#[trigger] self.snakes@[q]).id != you.id
                        && self.snakes@[q].head.neighbors_spec().contains(*point)),
            decreases self.snakes@.len() - i,
        {
            let s = &self.snakes[i];
            assert(placed(self.width as int, self.height as int, self.snakes@[i as int]@));
            if s.id != you.id {
                let around = s.head.neighbors();
                if contains_point(&around, *point) {
                    assert(self.near_other_head(you, *point)) by {
                        assert(self.snakes@[i as int].id != you.id);
                    }
                    return 3;
                }
            }
            i += 1;
        }
        if self.is_hazard(you, point) {
            16
        } else {
            1
        }
    }

    /// The index of the on-board cell `q` among the board cells.
    fn cell_index(&self, q: Point) -> (r: usize)
        requires
            self.wf(),
            self.contains_spec(q),
            self.width * self.height <= u32::MAX,
        ensures
            r < self.cells_spec().len(),
            self.cells_spec()[r as int] == q,
    {
        proof {
            self.lemma_cell_index(q);
        }
        let w = self.width as u64;
        let k = q.y as u64 * w + q.x as u64;
        k as usize
    }

    /// The index of an on-board cell among the board cells.
    pub open spec fn index_of(&self, q: Point) -> int {
        q.y * self.width + q.x
    }

    proof fn lemma_cells_on_board(&self, k: int)
        requires
            self.wf(),
            0 <= k < self.cells_spec().len(),
        ensures
            self.contains_spec(self.cells_spec()[k]),
            self.index_of(self.cells_spec()[k]) == k,
    {
        let w = self.width as int;
        assert(w > 0) by (nonlinear_arith)
            requires
                k < w * self.height,
                k >= 0,
        ;
        assert(k / w < self.height as int) by (nonlinear_arith)
            requires
                k < w * self.height,
                w > 0,
                k >= 0,
        ;
        vstd::arithmetic::div_mod::lemma_fundamental_div_mod(k, w);
        let x = k % w;
        let y = k / w;
        assert(0 <= x < w);
        assert(0 <= y) by (nonlinear_arith)
            requires
                k >= 0,
                w > 0,
                y == k / w,
        ;
        assert(self.cells_spec()[k].x == x);
        assert(self.cells_spec()[k].y == y);
        assert(y * w + x == k) by (nonlinear_arith)
            requires
                k == w * y + x,
        ;
    }

    /// Walks the parent links from `e` back to the start cell `si`.
    fn trace_path(
        &self,
        you: &Snake,
        start: Point,
        ends: &[Point],
        cells: &Vec<Point>,
        parent: &Vec<usize>,
        si: usize,
        e: usize,
        dist: Ghost<Seq<u64>>,
        done: Ghost<Seq<bool>>,
        ord: Ghost<Seq<int>>,
    ) -> (r: Vec<Point>)
        requires
            cells@.len() == parent@.len(),
            dist@.len() == cells@.len(),
            done@.len() == cells@.len(),
            ord@.len() == cells@.len(),
            si < cells@.len(),
            e < cells@.len(),
            cells@[si as int] == start,
            done@[e as int],
            ends@.contains(cells@[e as int]),
            exists|steps: int| self.tree_ok(you, cells@, si as int, dist@, done@, parent@, ord@, steps),
        ensures
            self.is_path(you, start, ends@, r@),
    {
        proof {
            reveal(Board::tree_ok);
        }
        let ghost cs = cells@;
        let mut path: Vec<Point> = Vec::new();
        path.push(cells[e]);
        let mut cur: usize = e;
        while cur != si
            invariant
                cs == cells@,
                cells@.len() == parent@.len(),
                dist@.len() == cs.len(),
                done@.len() == cs.len(),
                ord@.len() == cs.len(),
                si < cs.len(),
                cur < cs.len(),
                cs[si as int] == start,
                done@[cur as int],
                forall|j: int| 0 <= j < cs.len() && #[trigger] done@[j] ==> dist@[j] < u64::MAX && ord@[j] >= 1,
                forall|j: int|
                    #![trigger dist@[j]]
                    0 <= j < cs.len() && dist@[j] < u64::MAX && j != si ==> {
                        let p = parent@[j] as int;
                        &&& 0 <= p < cs.len()
                        &&& done@[p]
                        &&& cs[p].neighbors_spec().contains(cs[j])
                        &&& !self.unsafe_spec(you, cs[j])
                        &&& done@[j] ==> ord@[p] < ord@[j]
                    },
                path@.len() > 0,
                path@[0] == cs[cur as int],
                ends@.contains(path@.last()),
                forall|i: int| 0 <= i < path@.len() - 1 ==> (#[trigger] path@[i]).neighbors_spec().contains(path@[i + 1]),
                forall|i: int| 1 <= i < path@.len() ==> !self.unsafe_spec(you, #[trigger] path@[i]),
            decreases ord@[cur as int],
        {
            assert(dist@[cur as int] < u64::MAX);
            let p = parent[cur];
            let ghost old_path = path@;
            path.insert(0, cells[p]);
            assert(path@ =~= seq![cs[p as int]] + old_path);
            assert forall|i: int| 0 <= i < path@.len() - 1 implies (#[trigger] path@[i]).neighbors_spec().contains(path@[i + 1]) by {
                if i > 0 {
                    assert(path@[i] == old_path[i - 1]);
                    assert(path@[i + 1] == old_path[i]);
                }
            }
            assert forall|i: int| 1 <= i < path@.len() implies !self.unsafe_spec(you, #[trigger] path@[i]) by {
                if i > 1 {
                    assert(path@[i] == old_path[i - 1]);
                }
            }
            cur = p;
        }
        path
    }

    /// Whether `p` is one of `v`.
    fn contains_end(v: &[Point], p: Point) -> (r: bool)
        ensures
            r == v@.contains(p),
    {
        let mut i: usize = 0;
        while i < v.len()
            invariant
                i <= v@.len(),
                forall|k: int| 0 <= k < i ==> v@[k] != p,
            decreases v@.len() - i,
        {
            if v[i] == p {
                return true;
            }
            i += 1;
        }
        false
    }

    proof fn lemma_search_complete(
        &self,
        you: &Snake,
        start: Point,
        ends: Seq<Point>,
        cs: Seq<Point>,
        dist: Seq<u64>,
        done: Seq<bool>,
        si: int,
        q: Point,
        m: nat,
    )
        requires
            self.wf(),
            cs == self.cells_spec(),
            dist.len() == cs.len(),
            done.len() == cs.len(),
            0 <= si < cs.len(),
            cs[si] == start,
            self.contains_spec(start),
            forall|j: int| 0 <= j < cs.len() ==> #[trigger] done[j] || !(dist[j] < u64::MAX),
            dist[si] < u64::MAX,
            forall|u: int, d: int|
                #![trigger done[u], cs[u].neighbors_spec()[d]]
                0 <= u < cs.len() && done[u] && 0 <= d < 4 && !self.unsafe_spec(you, cs[u].neighbors_spec()[d])
                    ==> dist[self.index_of(cs[u].neighbors_spec()[d])] < u64::MAX,
            self.path_reach(you, start, q, m),
        ensures
            self.contains_spec(q),
            done[self.index_of(q)],
        decreases m,
    {
        if q == start {
            self.lemma_cells_on_board(si);
        } else {
            let d = choose|d: int| 0 <= d < 4 && self.path_reach(you, start, #[trigger] q.neighbors_spec()[d], (m - 1) as nat);
            let r = q.neighbors_spec()[d];
            self.lemma_search_complete(you, start, ends, cs, dist, done, si, r, (m - 1) as nat);
            let u = self.index_of(r);
            self.lemma_cell_index(r);
            let back: int = if d == 0 { 1 } else if d == 1 { 0 } else if d == 2 { 3 } else { 2 };
            assert(cs[u].neighbors_spec()[back] == q);
            assert(done[u]);
            self.lemma_cell_index(q);
        }
    }

    /// The search state is consistent: distances are bounded by `steps` moves, every cell
    /// done has a distance and an order in `1..=steps`, and every reached cell but the start
    /// is safe and has a done parent next to it, done earlier when the cell is done itself.
    #[verifier::opaque]
    pub open spec fn tree_ok(
        &self,
        you: &Snake,
        cs: Seq<Point>,
        si: int,
        dist: Seq<u64>,
        done: Seq<bool>,
        parent: Seq<usize>,
        ord: Seq<int>,
        steps: int,
    ) -> bool {
        &&& dist.len() == cs.len()
        &&& done.len() == cs.len()
        &&& parent.len() == cs.len()
        &&& ord.len() == cs.len()
        &&& 0 <= si < cs.len()
        &&& dist[si] < u64::MAX
        &&& forall|j: int| 0 <= j < cs.len() && #[trigger] dist[j] < u64::MAX ==> dist[j] <= MAX_STEP_COST * steps
        &&& forall|j: int| 0 <= j < cs.len() && #[trigger] done[j] ==> dist[j] < u64::MAX && 1 <= ord[j] <= steps
        &&& forall|j: int|
            #![trigger dist[j]]
            0 <= j < cs.len() && dist[j] < u64::MAX && j != si ==> {
                let p = parent[j] as int;
                &&& 0 <= p < cs.len()
                &&& done[p]
                &&& cs[p].neighbors_spec().contains(cs[j])
                &&& !self.unsafe_spec(you, cs[j])
                &&& done[j] ==> ord[p] < ord[j]
            }
    }

    /// Lowers the distance of the neighbour `q` of the done cell `u` when the step through `u`
    /// is cheaper and `q` is safe and not done.
    fn relax(
        &self,
        you: &Snake,
        ends: &[Point],
        cells: &Vec<Point>,
        dist: &mut Vec<u64>,
        prio: &mut Vec<u64>,
        parent: &mut Vec<usize>,
        done: &Vec<bool>,
        u: usize,
        q: Point,
        si: usize,
        steps: u64,
        ord: Ghost<Seq<int>>,
    )
        requires
            self.wf(),
            forall|i: int| 0 <= i < ends@.len() ==> self.contains_spec(#[trigger] ends@[i]),
            self.width * self.height <= u32::MAX,
            cells@ == self.cells_spec(),
            self.tree_ok(you, cells@, si as int, old(dist)@, done@, old(parent)@, ord@, steps as int),
            old(prio)@.len() == cells@.len(),
            u < cells@.len(),
            done@[u as int],
            old(dist)@[u as int] <= MAX_STEP_COST * (steps - 1),
            1 <= steps <= cells@.len(),
            cells@[u as int].neighbors_spec().contains(q),
        ensures
            self.tree_ok(you, cells@, si as int, final(dist)@, done@, final(parent)@, ord@, steps as int),
            final(prio)@.len() == cells@.len(),
            forall|j: int| 0 <= j < cells@.len() && #[trigger] old(dist)@[j] < u64::MAX ==> final(dist)@[j] < u64::MAX,
            !self.unsafe_spec(you, q) ==> final(dist)@[self.index_of(q)] < u64::MAX,
            final(dist)@[u as int] == old(dist)@[u as int],
    {
        proof {
            reveal(Board::tree_ok);
        }
        if self.is_unsafe(you, &q) {
            return;
        }
        let qi = self.cell_index(q);
        proof {
            self.lemma_cells_on_board(qi as int);
        }
        let g = self.g_score(you, &q);
        let cost = dist[u] + g;
        if cost < dist[qi] && !done[qi] {
            let ghost d0 = dist@;
            let ghost p0 = parent@;
            dist.set(qi, cost);
            proof {
                assert forall|i: int| 0 <= i < ends@.len() implies q.distance_spec(#[trigger] ends@[i]) <= u32::MAX by {
                    assert(self.contains_spec(ends@[i]));
                }
            }
            let h = match q.closest_distance(ends) {
                Some(h) => h as u64,
                None => 0,
            };
            prio.set(qi, cost + h);
            parent.set(qi, u);
            proof {
                let cs = cells@;
                assert forall|j: int| #![trigger dist@[j]] 0 <= j < cs.len() && dist@[j] < u64::MAX && j != si implies {
                    let p = parent@[j] as int;
                    &&& 0 <= p < cs.len()
                    &&& done@[p]
                    &&& cs[p].neighbors_spec().contains(cs[j])
                    &&& !self.unsafe_spec(you, cs[j])
                    &&& done@[j] ==> ord@[p] < ord@[j]
                } by {
                    if j != qi {
                        assert(d0[j] < u64::MAX);
                    }
                }
                assert forall|j: int| 0 <= j < cs.len() && #[trigger] dist@[j] < u64::MAX implies dist@[j]
                    <= MAX_STEP_COST * steps by {
                    if j != qi {
                        assert(d0[j] < u64::MAX);
                    }
                }
                assert forall|j: int| 0 <= j < cs.len() && #[trigger] done@[j] implies dist@[j] < u64::MAX && 1
                    <= ord@[j] <= steps by {
                    assert(d0[j] < u64::MAX);
                }
            }
        }
    }

    /// A path from `start` to one of `ends` over cells safe for `you`, found by best-first
    /// search on the step costs of `g_score` guided by the distance to the nearest end;
    /// `None` when no end can be reached.
    #[verifier::rlimit(100)]
    pub fn astar_find(&self, you: &Snake, start: &Point, ends: &[Point]) -> (r: Option<Vec<Point>>)
        requires
            self.wf(),
            ends@.len() > 0,
            self.contains_spec(*start),
            forall|i: int| 0 <= i < ends@.len() ==> self.contains_spec(#[trigger] ends@[i]),
            self.width * self.height <= u32::MAX,
        ensures
            r matches Some(path) ==> self.is_path(you, *start, ends@, path@),
            r.is_none() ==> forall|e: Point, m: nat|
                ends@.contains(e) ==> !#[trigger] self.path_reach(you, *start, e, m),
    {
        let cells = self.board_cells();
        let ghost cs = cells@;
        let n = cells.len();
        let si = self.cell_index(*start);
        let mut dist: Vec<u64> = Vec::new();
        let mut prio: Vec<u64> = Vec::new();
        let mut done: Vec<bool> = Vec::new();
        let mut parent: Vec<usize> = Vec::new();
        let mut k: usize = 0;
        while k < n
            invariant
                n == cs.len(),
                k <= n,
                si < n,
                dist@.len() == k,
                prio@.len() == k,
                done@.len() == k,
                parent@.len() == k,
                forall|j: int| 0 <= j < k ==> #[trigger] done@[j] == false,
                forall|j: int| 0 <= j < k ==> (#[trigger] dist@[j] < u64::MAX <==> j == si),
                forall|j: int| 0 <= j < k && j == si ==> #[trigger] dist@[j] == 0,
            decreases n - k,
        {
            dist.push(if k == si { 0 } else { u64::MAX });
            prio.push(0);
            done.push(false);
            parent.push(si);
            k += 1;
        }
        let ghost mut ord: Seq<int> = Seq::new(n as nat, |j: int| 0);
        proof {
            assert(done@ =~= Seq::new(n as nat, |j: int| false));
            lemma_count_false_all(n as nat);
            reveal(Board::tree_ok);
            assert(self.tree_ok(you, cs, si as int, dist@, done@, parent@, ord, 0));
        }
        let mut steps: u64 = 0;
        loop
            invariant
                self.wf(),
                self.contains_spec(*start),
                forall|i: int| 0 <= i < ends@.len() ==> self.contains_spec(#[trigger] ends@[i]),
                self.width * self.height <= u32::MAX,
                cs == self.cells_spec(),
                cells@ == cs,
                n == cs.len(),
                si < n,
                cs[si as int] == *start,
                prio@.len() == n,
                self.tree_ok(you, cs, si as int, dist@, done@, parent@, ord, steps as int),
                steps + count_false(done@) == n,
                forall|j: int| 0 <= j < n && #[trigger] done@[j] ==> !ends@.contains(cs[j]),
                forall|v: int, e: int|
                    #![trigger done@[v], cs[v].neighbors_spec()[e]]
                    0 <= v < n && done@[v] && 0 <= e < 4 && !self.unsafe_spec(you, cs[v].neighbors_spec()[e])
                        ==> dist@[self.index_of(cs[v].neighbors_spec()[e])] < u64::MAX,
            decreases count_false(done@),
        {
            proof {
                reveal(Board::tree_ok);
            }
            let mut best: Option<usize> = None;
            let mut j: usize = 0;
            while j < n
                invariant
                    n == dist@.len(),
                    n == done@.len(),
                    n == prio@.len(),
                    j <= n,
                    best matches Some(b) ==> b < n && !done@[b as int] && dist@[b as int] < u64::MAX,
                    best.is_none() ==> forall|q: int| 0 <= q < j ==> #[trigger] done@[q] || !(dist@[q] < u64::MAX),
                decreases n - j,
            {
                if !done[j] && dist[j] < u64::MAX {
                    match best {
                        None => {
                            best = Some(j);
                        },
                        Some(b) => {
                            if prio[j] < prio[b] {
                                best = Some(j);
                            }
                        },
                    }
                }
                j += 1;
            }
            let u = match best {
                Some(u) => u,
                None => {
                    proof {
                        assert forall|e: Point, m: nat| ends@.contains(e) implies !#[trigger] self.path_reach(
                            you,
                            *start,
                            e,
                            m,
                        ) by {
                            if self.path_reach(you, *start, e, m) {
                                self.lemma_search_complete(you, *start, ends@, cs, dist@, done@, si as int, e, m);
                                self.lemma_cell_index(e);
                            }
                        }
                    }
                    return None;
                },
            };
            let ghost done0 = done@;
            proof {
                lemma_count_false_set(done@, u as int);
                lemma_count_false_le(done@.update(u as int, true));
                ord = ord.update(u as int, steps + 1);
            }
            done.set(u, true);
            steps = steps + 1;
            proof {
                assert forall|j: int| 0 <= j < n && #[trigger] done@[j] implies dist@[j] < u64::MAX && 1 <= ord[j]
                    <= steps by {
                    if j != u {
                        assert(done0[j]);
                    }
                }
                assert forall|j: int| #![trigger dist@[j]] 0 <= j < n && dist@[j] < u64::MAX && j != si implies {
                    let p = parent@[j] as int;
                    &&& 0 <= p < n
                    &&& done@[p]
                    &&& cs[p].neighbors_spec().contains(cs[j])
                    &&& !self.unsafe_spec(you, cs[j])
                    &&& done@[j] ==> ord[p] < ord[j]
                } by {
                    let p = parent@[j] as int;
                    assert(done0[p]);
                    if j != u {
                        if done@[j] {
                            assert(done0[j]);
                        }
                    }
                }
                assert(self.tree_ok(you, cs, si as int, dist@, done@, parent@, ord, steps as int));
            }
            if Board::contains_end(ends, cells[u]) {
                let path = self.trace_path(you, *start, ends, &cells, &parent, si, u, Ghost(dist@), Ghost(done@), Ghost(ord));
                return Some(path);
            }
            let here = cells[u];
            proof {
                self.lemma_cells_on_board(u as int);
            }
            let around = here.neighbors();
            let mut d: usize = 0;
            while d < 4
                invariant
                    self.wf(),
                    forall|i: int| 0 <= i < ends@.len() ==> self.contains_spec(#[trigger] ends@[i]),
                    self.width * self.height <= u32::MAX,
                    cs == self.cells_spec(),
                    cells@ == cs,
                    n == cs.len(),
                    u < n,
                    here == cs[u as int],
                    self.contains_spec(here),
                    around@ == here.neighbors_spec(),
                    done@[u as int],
                    dist@[u as int] <= MAX_STEP_COST * (steps - 1),
                    prio@.len() == n,
                    1 <= steps <= n,
                    self.tree_ok(you, cs, si as int, dist@, done@, parent@, ord, steps as int),
                    forall|v: int, e: int|
                        #![trigger done@[v], cs[v].neighbors_spec()[e]]
                        0 <= v < n && done@[v] && 0 <= e < 4 && (v != u || e < d) && !self.unsafe_spec(
                            you,
                            cs[v].neighbors_spec()[e],
                        ) ==> dist@[self.index_of(cs[v].neighbors_spec()[e])] < u64::MAX,
                decreases 4 - d,
            {
                let ghost d0 = dist@;
                self.relax(you, ends, &cells, &mut dist, &mut prio, &mut parent, &done, u, around[d], si, steps, Ghost(ord));
                proof {
                    assert forall|v: int, e: int|
                        #![trigger done@[v], cs[v].neighbors_spec()[e]]
                        0 <= v < n && done@[v] && 0 <= e < 4 && (v != u || e < d + 1) && !self.unsafe_spec(
                            you,
                            cs[v].neighbors_spec()[e],
                        ) implies dist@[self.index_of(cs[v].neighbors_spec()[e])] < u64::MAX by {
                        if v != u || e < d {
                            let t = self.index_of(cs[v].neighbors_spec()[e]);
                            self.lemma_cells_on_board(v);
                            self.lemma_cell_index(cs[v].neighbors_spec()[e]);
                            assert(d0[t] < u64::MAX);
                        }
                    }
                }
                d += 1;
            }
        }
    }
}

impl Board {
    /// The food items at the smallest distance from `from`, in board order.
    pub open spec fn nearest_spec(&self, from: Point) -> Seq<Point> {
        self.food@.filter(
            |f: Point|
                forall|i: int| 0 <= i < self.food@.len() ==> from.distance_spec(f) <= from.distance_spec(#[trigger] self.food@[i]),
        )
    }

    /// Every food item lies on the board.
    pub open spec fn food_on_board(&self) -> bool {
        forall|i: int| 0 <= i < self.food@.len() ==> self.contains_spec(#[trigger] self.food@[i])
    }

    /// The food items at the smallest distance from the on-board cell `from`.
    pub fn nearest_foods(&self, from: &Point) -> (r: Vec<Point>)
        requires
            self.wf(),
            self.food_on_board(),
            self.contains_spec(*from),
        ensures
            r@ == self.nearest_spec(*from),
    {
        proof {
            assert forall|i: int| 0 <= i < self.food@.len() implies from.distance_spec(#[trigger] self.food@[i])
                <= u32::MAX by {
                assert(self.contains_spec(self.food@[i]));
            }
        }
        let best = match from.closest_distance(self.food.as_slice()) {
            Some(b) => b,
            None => {
                assert(self.food@.filter(
                    |f: Point|
                        forall|i: int| 0 <= i < self.food@.len() ==> from.distance_spec(f) <= from.distance_spec(#[trigger] self.food@[i]),
                ) =~= Seq::<Point>::empty()) by {
                    reveal(Seq::filter);
                }
                return Vec::new();
            },
        };
        let ghost pred = |f: Point|
            forall|i: int| 0 <= i < self.food@.len() ==> from.distance_spec(f) <= from.distance_spec(#[trigger] self.food@[i]);
        let mut r: Vec<Point> = Vec::new();
        let mut k: usize = 0;
        while k < self.food.len()
            invariant
                self.wf(),
                self.food_on_board(),
                self.contains_spec(*from),
                exists|i: int| 0 <= i < self.food@.len() && best == from.distance_spec(#[trigger] self.food@[i]),
                forall|i: int| 0 <= i < self.food@.len() ==> best <= from.distance_spec(#[trigger] self.food@[i]),
                k <= self.food@.len(),
                pred == (|f: Point|
                    forall|i: int| 0 <= i < self.food@.len() ==> from.distance_spec(f) <= from.distance_spec(#[trigger] self.food@[i])),
                r@ == self.food@.take(k as int).filter(pred),
            decreases self.food@.len() - k,
        {
            let f = self.food[k];
            proof {
                assert(self.food@.take(k + 1) =~= self.food@.take(k as int).push(f));
                self.food@.take(k as int).lemma_filter_push(f, pred);
                assert(self.contains_spec(f));
                let w = choose|i: int| 0 <= i < self.food@.len() && best == from.distance_spec(#[trigger] self.food@[i]);
                assert(pred(f) <==> from.distance_spec(f) == best as int);
            }
            if from.distance(&f) == best {
                r.push(f);
            }
            k += 1;
        }
        assert(self.food@.take(self.food@.len() as int) =~= self.food@);
        r
    }

    /// The first step of a path from the head of `you` to one of the nearest food items.
    pub fn hungry_move(&self, you: &Snake) -> (r: Option<Move>)
        requires
            self.wf(),
            self.food_on_board(),
            self.contains_spec(you.head),
            self.width * self.height <= u32::MAX,
        ensures
            r matches Some(m) ==> exists|path: Seq<Point>|
                self.is_path(you, you.head, self.nearest_spec(you.head), path) && path.len() >= 2 && #[trigger] path[1]
                    == m.apply(you.head),
    {
        let nearest = self.nearest_foods(&you.head);
        proof {
            let pred = |f: Point|
                forall|j: int| 0 <= j < self.food@.len() ==> you.head.distance_spec(f) <= you.head.distance_spec(#[trigger] self.food@[j]);
            lemma_filter_members(self.food@, pred);
            assert forall|i: int| 0 <= i < nearest@.len() implies self.contains_spec(#[trigger] nearest@[i]) by {
                let j = choose|j: int| 0 <= j < self.food@.len() && self.food@[j] == nearest@[i];
                assert(self.contains_spec(self.food@[j]));
            }
        }
        if nearest.len() == 0 {
            return None;
        }
        let path = match self.astar_find(you, &you.head, nearest.as_slice()) {
            Some(path) => path,
            None => {
                return None;
            },
        };
        if path.len() < 2 {
            return None;
        }
        assert(path@[0].neighbors_spec().contains(path@[1]));
        let m = Move::from_points(&path[0], &path[1]);
        match m {
            Some(m) => {
                assert(path@[1] == m.apply(you.head));
                Some(m)
            },
            None => {
                assert(false);
                None
            },
        }
    }
}

/// Every element kept by a filter is an element of the sequence.
proof fn lemma_filter_members(s: Seq<Point>, pred: spec_fn(Point) -> bool)
    ensures
        forall|i: int|
            0 <= i < s.filter(pred).len() ==> exists|j: int| 0 <= j < s.len() && s[j] == #[trigger] s.filter(pred)[i],
    decreases s.len(),
{
    reveal(Seq::filter);
    if s.len() > 0 {
        lemma_filter_members(s.drop_last(), pred);
        let rest = s.drop_last().filter(pred);
        assert forall|i: int| 0 <= i < s.filter(pred).len() implies exists|j: int|
            0 <= j < s.len() && s[j] == #[trigger] s.filter(pred)[i] by {
            if i < rest.len() {
                let j = choose|j: int| 0 <= j < s.drop_last().len() && s.drop_last()[j] == #[trigger] rest[i];
                assert(s[j] == s.filter(pred)[i]);
            } else {
                assert(s[s.len() - 1] == s.filter(pred)[i]);
            }
        }
    }
}

impl Board {
    /// Another agent with a longer body than `you` has its head next to `p`.
    pub open spec fn potential_move_spec(&self, you: &Snake, p: Point) -> bool {
        exists|i: int|
            0 <= i < self.snakes@.len() && (#[trigger] self.snakes@[i]).id != you.id
                && self.snakes@[i].head.neighbors_spec().contains(p) && self.snakes@[i].body@.len()
                > you.body@.len()
    }

    /// Whether another agent with a longer body than `you` could move its head onto `point`.
    pub fn is_potential_snake_move(&self, you: &Snake, point: &Point) -> (r: bool)
        requires
            self.wf(),
        ensures
            r == self.potential_move_spec(you, *point),
    {
        let mut i: usize = 0;
        while i < self.snakes.len()
            invariant
                self.wf(),
                i <= self.snakes@.len(),
                forall|q: int|
                    0 <= q < i ==> !((#[trigger] self.snakes@[q]).id != you.id
                        && self.snakes@[q].head.neighbors_spec().contains(*point) && self.snakes@[q].body@.len()
                        > you.body@.len()),
            decreases self.snakes@.len() - i,
        {
            let s = &self.snakes[i];
            assert(placed(self.width as int, self.height as int, self.snakes@[i as int]@));
            if s.id != you.id && s.body.len() > you.body.len() {
                let around = s.head.neighbors();
                if contains_point(&around, *point) {
                    return true;
                }
            }
            i += 1;
        }
        false
    }

    /// Whether entering `point` leaves `you` less reachable space than its body needs,
    /// counting one more cell for each food item in that space.
    pub fn is_trapping(&self, you: &Snake, point: &Point) -> (r: bool)
        requires
            self.wf(),
            self.width * self.height <= u32::MAX,
        ensures
            r == (self.fill_spec(you, *point) < you.body@.len() + self.fill_food_spec(you, *point)),
    {
        let (area, food) = self.floodfill(you, point);
        (area as u128) < you.body.len() as u128 + food as u128
    }

    /// Whether `point` is risky for `you`: a longer agent may move there, or it traps `you`.
    pub fn is_hazardous(&self, you: &Snake, point: &Point) -> (r: bool)
        requires
            self.wf(),
            self.width * self.height <= u32::MAX,
        ensures
            r == (self.potential_move_spec(you, *point) || self.fill_spec(you, *point) < you.body@.len()
                + self.fill_food_spec(you, *point)),
    {
        self.is_potential_snake_move(you, point) || self.is_trapping(you, point)
    }

    /// The agents other than `you` that are shorter than it.
    pub open spec fn smaller_spec(&self, you: &Snake) -> Seq<Snake> {
        self.snakes@.filter(|s: Snake| s.id != you.id && s.length < you.length)
    }

    /// The heads of the agents other than `you` that are shorter than it.
    fn smaller_heads(&self, you: &Snake) -> (r: Vec<Point>)
        requires
            self.wf(),
        ensures
            r@.len() == self.smaller_spec(you).len(),
            forall|i: int| 0 <= i < r@.len() ==> #[trigger] r@[i] == self.smaller_spec(you)[i].head,
    {
        let mut r: Vec<Point> = Vec::new();
        let mut i: usize = 0;
        while i < self.snakes.len()
            invariant
                i <= self.snakes@.len(),
                r@.len() == self.snakes@.take(i as int).filter(|s: Snake| s.id != you.id && s.length < you.length).len(),
                forall|k: int|
                    0 <= k < r@.len() ==> #[trigger] r@[k] == self.snakes@.take(i as int).filter(
                        |s: Snake| s.id != you.id && s.length < you.length,
                    )[k].head,
            decreases self.snakes@.len() - i,
        {
            proof {
                assert(self.snakes@.take(i + 1) =~= self.snakes@.take(i as int).push(self.snakes@[i as int]));
                self.snakes@.take(i as int).lemma_filter_push(
                    self.snakes@[i as int],
                    |s: Snake| s.id != you.id && s.length < you.length,
                );
            }
            let s = &self.snakes[i];
            if s.id != you.id && s.length < you.length {
                r.push(s.head);
            }
            i += 1;
        }
        assert(self.snakes@.take(self.snakes@.len() as int) =~= self.snakes@);
        r
    }

    /// Whether `you` should attack: at least two other agents are shorter than it.
    pub fn is_aggressive(&self, you: &Snake) -> (r: bool)
        requires
            self.wf(),
        ensures
            r == (self.smaller_spec(you).len() >= 2),
    {
        self.smaller_heads(you).len() >= 2
    }

    /// The first step of a path from the head of `you` to the head of a shorter agent.
    pub fn aggressive_move(&self, you: &Snake) -> (r: Option<Move>)
        requires
            self.wf(),
            self.contains_spec(you.head),
            self.width * self.height <= u32::MAX,
        ensures
            r matches Some(m) ==> exists|path: Seq<Point>|
                self.is_path(you, you.head, self.smaller_spec(you).map_values(|s: Snake| s.head), path) && path.len()
                    >= 2 && #[trigger] path[1] == m.apply(you.head),
    {
        let heads = self.smaller_heads(you);
        let ghost targets = self.smaller_spec(you).map_values(|s: Snake| s.head);
        assert(heads@ =~= targets);
        proof {
            let pred = |s: Snake| s.id != you.id && s.length < you.length;
            assert forall|i: int| 0 <= i < heads@.len() implies self.contains_spec(#[trigger] heads@[i]) by {
                lemma_filter_snakes(self.snakes@, pred);
                let j = choose|j: int| 0 <= j < self.snakes@.len() && self.snakes@[j] == #[trigger] self.snakes@.filter(pred)[i];
                assert(placed(self.width as int, self.height as int, self.snakes@[j]@));
            }
        }
        if heads.len() == 0 {
            return None;
        }
        let path = match self.astar_find(you, &you.head, heads.as_slice()) {
            Some(path) => path,
            None => {
                return None;
            },
        };
        if path.len() < 2 {
            return None;
        }
        assert(path@[0].neighbors_spec().contains(path@[1]));
        match Move::from_points(&path[0], &path[1]) {
            Some(m) => {
                assert(path@[1] == m.apply(you.head));
                Some(m)
            },
            None => {
                assert(false);
                None
            },
        }
    }

    /// Whether `you` should act scared: there is no other agent, or the nearest other head
    /// (the first of equals) is within 3 cells and its body is at least as long.
    pub fn is_scared(&self, you: &Snake) -> (r: bool)
        requires
            self.wf(),
            self.contains_spec(you.head),
        ensures
            (forall|i: int| 0 <= i < self.snakes@.len() ==> (#[trigger] self.snakes@[i]).id == you.id) ==> r,
            r && (exists|i: int| 0 <= i < self.snakes@.len() && (#[trigger] self.snakes@[i]).id != you.id) ==> exists|i: int|
                0 <= i < self.snakes@.len() && (#[trigger] self.snakes@[i]).id != you.id
                    && self.snakes@[i].head.distance_spec(you.head) <= 3 && self.snakes@[i].body@.len()
                    >= you.body@.len() && forall|j: int|
                    0 <= j < self.snakes@.len() && (#[trigger] self.snakes@[j]).id != you.id ==> self.snakes@[i].head.distance_spec(
                        you.head,
                    ) <= self.snakes@[j].head.distance_spec(you.head),
    {
        let mut closest: Option<usize> = None;
        let mut best: u32 = 0;
        let mut i: usize = 0;
        while i < self.snakes.len()
            invariant
                self.wf(),
                self.contains_spec(you.head),
                i <= self.snakes@.len(),
                closest.is_none() ==> forall|q: int| 0 <= q < i ==> (#[trigger] self.snakes@[q]).id == you.id,
                closest matches Some(c) ==> {
                    &&& c < i
                    &&& self.snakes@[c as int].id != you.id
                    &&& best == self.snakes@[c as int].head.distance_spec(you.head)
                    &&& forall|q: int|
                        0 <= q < i && (#[trigger] self.snakes@[q]).id != you.id ==> best
                            <= self.snakes@[q].head.distance_spec(you.head)
                },
            decreases self.snakes@.len() - i,
        {
            let s = &self.snakes[i];
            assert(placed(self.width as int, self.height as int, self.snakes@[i as int]@));
            if s.id != you.id {
                let d = s.head.distance(&you.head);
                match closest {
                    Some(_) => {
                        if d < best {
                            closest = Some(i);
                            best = d;
                        }
                    },
                    None => {
                        closest = Some(i);
                        best = d;
                    },
                }
            }
            i += 1;
        }
        match closest {
            None => true,
            Some(c) => best <= 3 && self.snakes[c].body.len() >= you.body.len(),
        }
    }
}

proof fn lemma_filter_snakes(s: Seq<Snake>, pred: spec_fn(Snake) -> bool)
    ensures
        forall|i: int|
            0 <= i < s.filter(pred).len() ==> exists|j: int| 0 <= j < s.len() && s[j] == #[trigger] s.filter(pred)[i],
    decreases s.len(),
{
    reveal(Seq::filter);
    if s.len() > 0 {
        lemma_filter_snakes(s.drop_last(), pred);
        let rest = s.drop_last().filter(pred);
        assert forall|i: int| 0 <= i < s.filter(pred).len() implies exists|j: int|
            0 <= j < s.len() && s[j] == #[trigger] s.filter(pred)[i] by {
            if i < rest.len() {
                let j = choose|j: int| 0 <= j < s.drop_last().len() && s.drop_last()[j] == #[trigger] rest[i];
                assert(s[j] == s.filter(pred)[i]);
            } else {
                assert(s[s.len() - 1] == s.filter(pred)[i]);
            }
        }
    }
}

/// Some marked cell that is safe for `you` is a neighbour of `q`.
pub open spec fn safe_marked_neighbor(board: &Board, you: &Snake, cells: Seq<Point>, marks: Seq<bool>, q: Point) -> bool {
    exists|j: int|
        #![trigger marks[j]]
        0 <= j < cells.len() && marks[j] && !board.unsafe_spec(you, cells[j]) && q.neighbors_spec().contains(cells[j])
}

impl Board {
    /// The cells of the board and of the ring of cells around it, in row-major order.
    pub open spec fn ring_cells(&self) -> Seq<Point> {
        let w = self.width + 2;
        Seq::new((w * (self.height + 2)) as nat, |k: int| Point::at(k % w - 1, k / w - 1))
    }

    /// `q` is `head`, or lies next to a safe cell that is itself accessible in fewer steps.
    pub open spec fn access(&self, you: &Snake, head: Point, q: Point, n: nat) -> bool
        decreases n,
    {
        q == head || (n > 0 && exists|d: int|
            0 <= d < 4 && !self.unsafe_spec(you, #[trigger] q.neighbors_spec()[d]) && self.access(
                you,
                head,
                q.neighbors_spec()[d],
                (n - 1) as nat,
            ))
    }

    pub open spec fn accessible(&self, you: &Snake, head: Point, q: Point) -> bool {
        exists|n: nat| #[trigger] self.access(you, head, q, n)
    }

    proof fn lemma_ring_index(&self, q: Point)
        requires
            -1 <= q.x <= self.width,
            -1 <= q.y <= self.height,
            (self.width + 2) * (self.height + 2) <= u32::MAX,
        ensures
            exists|k: int| 0 <= k < self.ring_cells().len() && #[trigger] self.ring_cells()[k] == q,
    {
        let w = self.width + 2;
        let h = self.height + 2;
        let k = (q.y + 1) * w + (q.x + 1);
        lemma_fundamental_div_mod_converse(k, w, q.y + 1, q.x + 1);
        assert(k < w * h) by (nonlinear_arith)
            requires
                k == (q.y + 1) * w + (q.x + 1),
                0 <= q.x + 1 < w,
                0 <= q.y + 1 < h,
        ;
        assert(k >= 0) by (nonlinear_arith)
            requires
                k == (q.y + 1) * w + (q.x + 1),
                0 <= q.x + 1,
                0 <= q.y + 1,
                w >= 0,
        ;
        assert(self.ring_cells()[k] == q);
    }

    proof fn lemma_ring_cell(&self, k: int)
        requires
            self.wf(),
            0 <= k < self.ring_cells().len(),
            (self.width + 2) * (self.height + 2) <= u32::MAX,
        ensures
            self.ring_cells()[k].steppable(),
            -1 <= self.ring_cells()[k].x <= self.width,
            -1 <= self.ring_cells()[k].y <= self.height,
    {
        let w = self.width + 2;
        let h = self.height + 2;
        assert(w > 0);
        assert(k / w < h) by (nonlinear_arith)
            requires
                k < w * h,
                w > 0,
                k >= 0,
        ;
        assert(0 <= k / w) by (nonlinear_arith)
            requires
                k >= 0,
                w > 0,
        ;
        assert(w <= 0x8000_0000 && h <= 0x8000_0000) by (nonlinear_arith)
            requires
                w * h <= 0xffff_ffff,
                w >= 2,
                h >= 2,
        ;
    }

    /// The ring cells, each marked when accessible from `head`.
    fn access_marks(&self, you: &Snake, head: &Point) -> (r: (Vec<Point>, Vec<bool>))
        requires
            self.wf(),
            self.contains_spec(*head),
            (self.width + 2) * (self.height + 2) <= u32::MAX,
        ensures
            r.0@ == self.ring_cells(),
            r.1@.len() == r.0@.len(),
            forall|k: int| #![trigger r.1@[k]] 0 <= k < r.0@.len() ==> (r.1@[k] <==> self.accessible(you, *head, r.0@[k])),
    {
        let w = self.width as u64 + 2;
        let h = self.height as u64 + 2;
        let total: u64 = w * h;
        let mut cells: Vec<Point> = Vec::new();
        let mut k: u64 = 0;
        while k < total
            invariant
                w == self.width + 2,
                h == self.height + 2,
                total == w * h,
                total <= u32::MAX,
                self.wf(),
                k <= total,
                cells@ == self.ring_cells().take(k as int),
            decreases total - k,
        {
            assert(k / w < h) by (nonlinear_arith)
                requires
                    k < w * h,
                    w > 0,
            ;
            assert(w <= 0x8000_0000 && h <= 0x8000_0000) by (nonlinear_arith)
                requires
                    w * h <= 0xffff_ffff,
                    w >= 2,
                    h >= 2,
            ;
            let p = Point { x: (k % w) as i32 - 1, y: (k / w) as i32 - 1 };
            cells.push(p);
            assert(cells@ =~= self.ring_cells().take(k + 1));
            k += 1;
        }
        assert(self.ring_cells().take(total as int) =~= self.ring_cells());
        let ghost cs = cells@;
        let n = cells.len();
        let mut marks: Vec<bool> = Vec::new();
        let mut k: usize = 0;
        while k < n
            invariant
                n == cs.len(),
                cells@ == cs,
                k <= n,
                marks@ == Seq::new(k as nat, |j: int| cs[j] == *head),
            decreases n - k,
        {
            marks.push(cells[k] == *head);
            assert(marks@ =~= Seq::new((k + 1) as nat, |j: int| cs[j] == *head));
            k += 1;
        }
        proof {
            assert forall|j: int| #![trigger marks@[j]] 0 <= j < n && marks@[j] implies self.accessible(you, *head, cs[j]) by {
                assert(self.access(you, *head, cs[j], 0));
            }
        }
        loop
            invariant
                self.wf(),
                (self.width + 2) * (self.height + 2) <= u32::MAX,
                cs == self.ring_cells(),
                cells@ == cs,
                n == cs.len(),
                marks@.len() == n,
                forall|j: int| #![trigger marks@[j]] 0 <= j < n && marks@[j] ==> self.accessible(you, *head, cs[j]),
                forall|j: int| #![trigger marks@[j]] 0 <= j < n && cs[j] == *head ==> marks@[j],
            ensures
                marks@.len() == n,
                forall|j: int| #![trigger marks@[j]] 0 <= j < n && marks@[j] ==> self.accessible(you, *head, cs[j]),
                forall|j: int| #![trigger marks@[j]] 0 <= j < n && cs[j] == *head ==> marks@[j],
                forall|j: int|
                    #![trigger marks@[j]]
                    0 <= j < n && !marks@[j] ==> !safe_marked_neighbor(self, you, cs, marks@, cs[j]),
            decreases count_false(marks@),
        {
            let ghost before = marks@;
            let mut changed = false;
            let mut k: usize = 0;
            while k < n
                invariant
                    self.wf(),
                    (self.width + 2) * (self.height + 2) <= u32::MAX,
                    cs == self.ring_cells(),
                    cells@ == cs,
                    n == cs.len(),
                    marks@.len() == n,
                    before.len() == n,
                    k <= n,
                    forall|j: int| #![trigger marks@[j]] 0 <= j < n && marks@[j] ==> self.accessible(you, *head, cs[j]),
                    forall|j: int| #![trigger marks@[j]] 0 <= j < n && cs[j] == *head ==> marks@[j],
                    changed ==> count_false(marks@) < count_false(before),
                    !changed ==> marks@ == before,
                    !changed ==> forall|j: int|
                        #![trigger marks@[j]]
                        0 <= j < k && !marks@[j] ==> !safe_marked_neighbor(self, you, cs, marks@, cs[j]),
                    forall|j: int| #![trigger marks@[j]] 0 <= j < n && before[j] ==> marks@[j],
                decreases n - k,
            {
                if !marks[k] {
                    let q = cells[k];
                    proof {
                        self.lemma_ring_cell(k as int);
                    }
                    let around = q.neighbors();
                    let mut found = false;
                    let mut j: usize = 0;
                    while j < n
                        invariant
                            self.wf(),
                            around@ == q.neighbors_spec(),
                            cells@ == cs,
                            n == cs.len(),
                            marks@.len() == n,
                            j <= n,
                            found ==> safe_marked_neighbor(self, you, cs, marks@, q),
                            !found ==> forall|i: int|
                                #![trigger marks@[i]]
                                0 <= i < j ==> !(marks@[i] && !self.unsafe_spec(you, cs[i]) && q.neighbors_spec().contains(cs[i])),
                        decreases n - j,
                    {
                        if !found && marks[j] && contains_point(&around, cells[j]) && !self.is_unsafe(you, &cells[j]) {
                            found = true;
                        }
                        j += 1;
                    }
                    if found {
                        proof {
                            let j = choose|j: int|
                                #![trigger marks@[j]]
                                0 <= j < cs.len() && marks@[j] && !self.unsafe_spec(you, cs[j]) && q.neighbors_spec().contains(cs[j]);
                            let m = choose|m: nat| #[trigger] self.access(you, *head, cs[j], m);
                            let d = choose|d: int| 0 <= d < 4 && q.neighbors_spec()[d] == cs[j];
                            assert(self.access(you, *head, q.neighbors_spec()[d], m));
                            assert(self.access(you, *head, q, m + 1));
                            lemma_count_false_set(marks@, k as int);
                        }
                        let ghost prev = marks@;
                        marks.set(k, true);
                        assert(marks@ == prev.update(k as int, true));
                        changed = true;
                    }
                }
                k += 1;
            }
            if !changed {
                break;
            }
        }
        proof {
            assert forall|k: int| #![trigger marks@[k]] 0 <= k < n implies (marks@[k] <==> self.accessible(you, *head, cs[k])) by {
                if self.accessible(you, *head, cs[k]) {
                    let m = choose|m: nat| #[trigger] self.access(you, *head, cs[k], m);
                    self.lemma_access_complete(you, *head, cs, marks@, cs[k], m);
                }
            }
        }
        (cells, marks)
    }

    proof fn lemma_access_complete(&self, you: &Snake, head: Point, cells: Seq<Point>, marks: Seq<bool>, q: Point, n: nat)
        requires
            self.wf(),
            (self.width + 2) * (self.height + 2) <= u32::MAX,
            cells == self.ring_cells(),
            marks.len() == cells.len(),
            forall|j: int|
                #![trigger marks[j]]
                0 <= j < cells.len() && !marks[j] ==> !safe_marked_neighbor(self, you, cells, marks, cells[j]),
            forall|j: int| #![trigger marks[j]] 0 <= j < cells.len() && cells[j] == head ==> marks[j],
            self.access(you, head, q, n),
        ensures
            forall|k: int| #![trigger marks[k]] 0 <= k < cells.len() && cells[k] == q ==> marks[k],
        decreases n,
    {
        if q != head {
            let d = choose|d: int|
                0 <= d < 4 && !self.unsafe_spec(you, #[trigger] q.neighbors_spec()[d]) && self.access(
                    you,
                    head,
                    q.neighbors_spec()[d],
                    (n - 1) as nat,
                );
            let r = q.neighbors_spec()[d];
            self.lemma_ring_index(r);
            let j = choose|j: int| 0 <= j < self.ring_cells().len() && #[trigger] self.ring_cells()[j] == r;
            self.lemma_access_complete(you, head, cells, marks, r, (n - 1) as nat);
            assert(marks[j]);
            assert(q.neighbors_spec().contains(cells[j]));
            assert forall|k: int| #![trigger marks[k]] 0 <= k < cells.len() && cells[k] == q implies marks[k] by {
                assert(safe_marked_neighbor(self, you, cells, marks, cells[k]));
            }
        }
    }

    /// The number of cells accessible from `head`: `head` itself and, repeatedly, every
    /// neighbour of an accessible cell that is safe for `you`. Unsafe cells next to the safe
    /// region, off the board too, are counted but not crossed.
    pub fn area_accessible(&self, you: &Snake, head: &Point) -> (r: u32)
        requires
            self.wf(),
            self.contains_spec(*head),
            (self.width + 2) * (self.height + 2) <= u32::MAX,
        ensures
            r == self.ring_cells().filter(|q: Point| self.accessible(you, *head, q)).len(),
    {
        let (cells, marks) = self.access_marks(you, head);
        let ghost cs = cells@;
        let mut area: u32 = 0;
        let mut k: usize = 0;
        while k < cells.len()
            invariant
                cs == cells@,
                cs == self.ring_cells(),
                cs.len() <= u32::MAX,
                marks@.len() == cs.len(),
                forall|j: int| #![trigger marks@[j]] 0 <= j < cs.len() ==> (marks@[j] <==> self.accessible(you, *head, cs[j])),
                k <= cs.len(),
                area == cs.take(k as int).filter(|q: Point| self.accessible(you, *head, q)).len(),
                area <= k,
            decreases cs.len() - k,
        {
            proof {
                assert(cs.take(k + 1) =~= cs.take(k as int).push(cs[k as int]));
                cs.take(k as int).lemma_filter_push(cs[k as int], |q: Point| self.accessible(you, *head, q));
            }
            assert(marks@[k as int] == self.accessible(you, *head, cs[k as int]));
            if marks[k] {
                area = area + 1;
            }
            k += 1;
        }
        assert(cs.take(cs.len() as int) =~= cs);
        area
    }
}

impl Board {
    /// The area score of moving `you` by `m`: cells it controls plus cells it can access.
    pub open spec fn area_score(&self, you: &Snake, m: Move) -> int {
        let p = m.apply(you.head);
        (self.cells_spec().filter(|q: Point| self.closer_spec(you, p, q)).len() + self.ring_cells().filter(
            |q: Point| self.accessible(you, p, q),
        ).len()) as int
    }

    /// The safe move of `you` with the highest area score, the last of equals; `None` when
    /// no move is safe.
    pub fn scared_move(&self, you: &Snake) -> (r: Option<Move>)
        requires
            self.wf(),
            self.contains_spec(you.head),
            (self.width + 2) * (self.height + 2) <= u32::MAX,
        ensures
            ({
                let moves = Move::all_spec().filter(|m: Move| !self.unsafe_spec(you, m.apply(you.head)));
                &&& r.is_none() <==> moves.len() == 0
                &&& r matches Some(m) ==> exists|i: int|
                    0 <= i < moves.len() && moves[i] == m && (forall|j: int|
                        0 <= j < moves.len() ==> self.area_score(you, #[trigger] moves[j]) <= self.area_score(you, m))
                        && (forall|j: int|
                        i < j < moves.len() ==> self.area_score(you, #[trigger] moves[j]) < self.area_score(you, m))
            }),
    {
        let moves = self.safe_moves(you);
        let ghost ms = moves@;
        assert(self.width * self.height <= u32::MAX) by (nonlinear_arith)
            requires
                (self.width + 2) * (self.height + 2) <= u32::MAX,
        ;
        let mut best: Option<usize> = None;
        let mut best_score: u64 = 0;
        let mut i: usize = 0;
        while i < moves.len()
            invariant
                self.wf(),
                self.contains_spec(you.head),
                (self.width + 2) * (self.height + 2) <= u32::MAX,
                self.width * self.height <= u32::MAX,
                ms == moves@,
                ms == Move::all_spec().filter(|m: Move| !self.unsafe_spec(you, m.apply(you.head))),
                i <= ms.len(),
                best.is_none() <==> i == 0,
                best matches Some(b) ==> {
                    &&& b < i
                    &&& best_score == self.area_score(you, ms[b as int])
                    &&& forall|j: int| 0 <= j < i ==> self.area_score(you, #[trigger] ms[j]) <= best_score
                    &&& forall|j: int| b < j < i ==> self.area_score(you, #[trigger] ms[j]) < best_score
                },
            decreases ms.len() - i,
        {
            let m = moves[i];
            proof {
                let pred = |m: Move| !self.unsafe_spec(you, m.apply(you.head));
                Move::all_spec().lemma_filter_pred(pred, i as int);
            }
            let p = m.to_point(&you.head);
            let control = self.area_control(you, &p);
            let access = self.area_accessible(you, &p);
            let score = control as u64 + access as u64;
            match best {
                None => {
                    best = Some(i);
                    best_score = score;
                },
                Some(_) => {
                    if score >= best_score {
                        best = Some(i);
                        best_score = score;
                    }
                },
            }
            i += 1;
        }
        match best {
            Some(b) => Some(moves[b]),
            None => None,
        }
    }

    /// The same choice as `scared_move`: the safe move with the most area.
    pub fn defensive_move(&self, you: &Snake) -> (r: Option<Move>)
        requires
            self.wf(),
            self.contains_spec(you.head),
            (self.width + 2) * (self.height + 2) <= u32::MAX,
        ensures
            ({
                let moves = Move::all_spec().filter(|m: Move| !self.unsafe_spec(you, m.apply(you.head)));
                &&& r.is_none() <==> moves.len() == 0
                &&& r matches Some(m) ==> exists|i: int|
                    0 <= i < moves.len() && moves[i] == m && (forall|j: int|
                        0 <= j < moves.len() ==> self.area_score(you, #[trigger] moves[j]) <= self.area_score(you, m))
                        && (forall|j: int|
                        i < j < moves.len() ==> self.area_score(you, #[trigger] moves[j]) < self.area_score(you, m))
            }),
    {
        self.scared_move(you)
    }
}

proof fn lemma_count_false_all(n: nat)
    ensures
        count_false(Seq::new(n, |j: int| false)) == n,
    decreases n,
{
    if n > 0 {
        assert(Seq::new(n, |j: int| false).drop_last() =~= Seq::new((n - 1) as nat, |j: int| false));
        lemma_count_false_all((n - 1) as nat);
    }
}

} // verus!
