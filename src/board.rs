use crate::point::Point;
use crate::settings::Ruleset;
use crate::simulation::distinct_ids;
use crate::snake::{ref_views, views, Snake, SnakeID, SnakeView};
use vstd::prelude::*;

verus! {

/// An agent as the first wire format described it, with a textual identifier.
#[derive(Debug)]
pub struct Battlesnake {
    pub id: String,
    pub name: String,
    pub health: u32,
    pub body: Vec<Point>,
    pub head: Point,
    pub length: u32,
    pub latency: String,
    pub shout: Option<String>,
}

/// A `width` x `height` grid with its agents, food and hazards.
#[derive(Debug)]
pub struct Board {
    pub height: u32,
    pub width: u32,
    pub snakes: Vec<Snake>,
    pub food: Vec<Point>,
    pub hazards: Vec<Point>,
}

/// A session as announced by the server.
#[derive(Debug)]
pub struct Game {
    pub id: String,
    pub ruleset: Ruleset,
    pub timeout: u32,
}

/// A complete snapshot of the world at one turn, seen by the controlled agent `you`.
#[derive(Debug)]
pub struct GameState {
    pub game: Game,
    pub turn: u32,
    pub board: Board,
    pub you: Snake,
}

/// `p` lies in `[0, width) x [0, height)`.
pub open spec fn on_board(width: int, height: int, p: Point) -> bool {
    0 <= p.x < width && 0 <= p.y < height
}

/// With distinct identifiers, dropping the agents with identifier `id` removes one agent
/// when some agent has it, and none otherwise.
proof fn lemma_others_count(s: Seq<SnakeView>, id: SnakeID)
    requires
        distinct_ids(s),
    ensures
        s.filter(|a: SnakeView| a.id != id).len() == s.len() - if exists|i: int| 0 <= i < s.len() && #[trigger] s[i].id == id {
            1int
        } else {
            0int
        },
    decreases s.len(),
{
    reveal(Seq::filter);
    if s.len() > 0 {
        let d = s.drop_last();
        assert forall|i: int, j: int| 0 <= i < j < d.len() implies (#[trigger] d[i]).id != (#[trigger] d[j]).id by {
            assert(d[i] == s[i] && d[j] == s[j]);
        }
        lemma_others_count(d, id);
        if exists|i: int| 0 <= i < d.len() && #[trigger] d[i].id == id {
            let i = choose|i: int| 0 <= i < d.len() && #[trigger] d[i].id == id;
            assert(s[i].id == id);
            assert(s.last().id != id) by {
                assert(s[i] == d[i]);
            }
        } else {
            if exists|i: int| 0 <= i < s.len() && #[trigger] s[i].id == id {
                let i = choose|i: int| 0 <= i < s.len() && #[trigger] s[i].id == id;
                if i < d.len() {
                    assert(d[i].id == id);
                }
            }
            if s.last().id == id {
                assert(s[s.len() - 1].id == id);
            }
        }
    }
}

impl Board {
    pub open spec fn contains_spec(&self, p: Point) -> bool {
        on_board(self.width as int, self.height as int, p)
    }

    /// The agents whose identifier differs from `you`, in board order.
    pub open spec fn others_spec(&self, you: SnakeID) -> Seq<SnakeView> {
        views(self.snakes@).filter(|s: SnakeView| s.id != you)
    }

    /// Whether `point` lies on the board.
    pub fn is_on_board(&self, point: &Point) -> (r: bool)
        ensures
            r == self.contains_spec(*point),
    {
        point.x >= 0 && (point.x as i64) < self.width as i64 && point.y >= 0 && (point.y as i64)
            < self.height as i64
    }

    /// The orthogonal neighbours of `point` that lie on the board, in the order up, down, left, right.
    pub fn neighbors(&self, point: &Point) -> (r: Vec<Point>)
        requires
            point.steppable(),
        ensures
            r@ == point.neighbors_spec().filter(|p: Point| self.contains_spec(p)),
    {
        let all = point.neighbors();
        let mut r: Vec<Point> = Vec::new();
        let mut i: usize = 0;
        while i < all.len()
            invariant
                all@ == point.neighbors_spec(),
                i <= all@.len(),
                r@ == all@.take(i as int).filter(|p: Point| self.contains_spec(p)),
            decreases all@.len() - i,
        {
            proof {
                assert(all@.take(i + 1) =~= all@.take(i as int).push(all@[i as int]));
                all@.take(i as int).lemma_filter_push(all@[i as int], |p: Point| self.contains_spec(p));
            }
            if self.is_on_board(&all[i]) {
                r.push(all[i]);
            }
            i += 1;
        }
        assert(all@.take(all@.len() as int) =~= all@);
        r
    }

    /// The agents other than `you`, in board order.
    pub fn other_snakes(&self, you: &SnakeID) -> (r: Vec<&Snake>)
        ensures
            ref_views(r@) == self.others_spec(*you),
            distinct_ids(views(self.snakes@)) ==> r@.len() == self.snakes@.len() - if exists|i: int|
                0 <= i < self.snakes@.len() && #[trigger] self.snakes@[i].id == *you {
                1int
            } else {
                0int
            },
    {
        let mut r: Vec<&Snake> = Vec::new();
        let mut i: usize = 0;
        while i < self.snakes.len()
            invariant
                i <= self.snakes@.len(),
                ref_views(r@) == views(self.snakes@).take(i as int).filter(|s: SnakeView| s.id != *you),
            decreases self.snakes@.len() - i,
        {
            proof {
                assert(views(self.snakes@).take(i + 1) =~= views(self.snakes@).take(i as int).push(
                    self.snakes@[i as int]@,
                ));
                views(self.snakes@).take(i as int).lemma_filter_push(
                    self.snakes@[i as int]@,
                    |s: SnakeView| s.id != *you,
                );
            }
            let s = &self.snakes[i];
            if s.id != *you {
                let ghost before = r@;
                r.push(s);
                assert(ref_views(r@) =~= ref_views(before).push(s@));
            }
            i += 1;
        }
        assert(views(self.snakes@).take(self.snakes@.len() as int) =~= views(self.snakes@));
        proof {
            if distinct_ids(views(self.snakes@)) {
                lemma_others_count(views(self.snakes@), *you);
                if exists|i: int| 0 <= i < self.snakes@.len() && #[trigger] self.snakes@[i].id == *you {
                    let i = choose|i: int| 0 <= i < self.snakes@.len() && #[trigger] self.snakes@[i].id == *you;
                    assert(views(self.snakes@)[i].id == *you);
                } else {
                    assert forall|i: int| 0 <= i < views(self.snakes@).len() implies #[trigger] views(self.snakes@)[i].id != *you by {
                        assert(views(self.snakes@)[i].id == self.snakes@[i].id);
                    }
                }
            }
        }
        r
    }
}

} // verus!
