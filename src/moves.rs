use crate::point::Point;
use vstd::prelude::*;

verus! {

/// One of the four directions an agent can move in.
#[derive(Clone, Copy, Debug, PartialEq, Eq, Hash, Structural)]
pub enum Move {
    Up,
    Down,
    Left,
    Right,
}

impl Move {
    /// Every move, in the fixed order up, down, left, right.
    pub open spec fn all_spec() -> Seq<Move> {
        seq![Move::Up, Move::Down, Move::Left, Move::Right]
    }

    /// The cell reached from `start` by this move.
    pub open spec fn apply(self, start: Point) -> Point {
        match self {
            Move::Up => Point::at(start.x as int, start.y + 1),
            Move::Down => Point::at(start.x as int, start.y - 1),
            Move::Left => Point::at(start.x - 1, start.y as int),
            Move::Right => Point::at(start.x + 1, start.y as int),
        }
    }

    /// The move that leads from `start` to the adjacent cell `end`, if they are adjacent.
    pub open spec fn between(start: Point, end: Point) -> Option<Move> {
        let dx = end.x - start.x;
        let dy = end.y - start.y;
        if dx == 0 && dy == 1 {
            Some(Move::Up)
        } else if dx == 0 && dy == -1 {
            Some(Move::Down)
        } else if dx == -1 && dy == 0 {
            Some(Move::Left)
        } else if dx == 1 && dy == 0 {
            Some(Move::Right)
        } else {
            None
        }
    }

    /// Returns all four moves.
    pub fn all() -> (r: [Move; 4])
        ensures
            r@ == Move::all_spec(),
    {
        let r = [Move::Up, Move::Down, Move::Left, Move::Right];
        assert(r@ =~= Move::all_spec());
        r
    }

    /// The move from `start` to `end`, when `end` is an orthogonal neighbour of `start`.
    pub fn from_points(start: &Point, end: &Point) -> (r: Option<Move>)
        ensures
            r == Move::between(*start, *end),
    {
        let dx: i64 = end.x as i64 - start.x as i64;
        let dy: i64 = end.y as i64 - start.y as i64;
        if dx == 0 && dy == 1 {
            Some(Move::Up)
        } else if dx == 0 && dy == -1 {
            Some(Move::Down)
        } else if dx == -1 && dy == 0 {
            Some(Move::Left)
        } else if dx == 1 && dy == 0 {
            Some(Move::Right)
        } else {
            None
        }
    }

    /// The move from `start` to `end`, when `end` is an orthogonal neighbour of `start`.
    pub fn from_coords(start: &Point, end: &Point) -> (r: Option<Move>)
        ensures
            r == Move::between(*start, *end),
    {
        Move::from_points(start, end)
    }

    /// The cell reached from `start` by this move.
    pub fn to_point(&self, start: &Point) -> (r: Point)
        requires
            start.steppable(),
        ensures
            r == self.apply(*start),
    {
        match self {
            Move::Up => Point { x: start.x, y: start.y + 1 },
            Move::Down => Point { x: start.x, y: start.y - 1 },
            Move::Left => Point { x: start.x - 1, y: start.y },
            Move::Right => Point { x: start.x + 1, y: start.y },
        }
    }

    /// The cell reached from `start` by this move.
    pub fn to_coord(&self, start: &Point) -> (r: Point)
        requires
            start.steppable(),
        ensures
            r == self.apply(*start),
    {
        self.to_point(start)
    }

    pub open spec fn name_spec(self) -> &'static str {
        match self {
            Move::Up => "up",
            Move::Down => "down",
            Move::Left => "left",
            Move::Right => "right",
        }
    }

    /// The lowercase wire name of the move.
    pub fn as_str(&self) -> (r: &'static str)
        ensures
            r == self.name_spec(),
    {
        match self {
            Move::Up => "up",
            Move::Down => "down",
            Move::Left => "left",
            Move::Right => "right",
        }
    }

    /// The move with the given lowercase wire name.
    pub fn from_name(name: &str) -> (r: Option<Move>)
        ensures
            r matches Some(m) ==> m.name_spec()@ == name@,
            (name@ == "up"@ || name@ == "down"@ || name@ == "left"@ || name@ == "right"@) ==> r.is_some(),
    {
        proof {
            reveal_strlit("up");
            reveal_strlit("down");
            reveal_strlit("left");
            reveal_strlit("right");
        }
        if str_eq(name, "up") {
            Some(Move::Up)
        } else if str_eq(name, "down") {
            Some(Move::Down)
        } else if str_eq(name, "left") {
            Some(Move::Left)
        } else if str_eq(name, "right") {
            Some(Move::Right)
        } else {
            None
        }
    }
}

/// Character-wise equality of two strings.
fn str_eq(a: &str, b: &str) -> (r: bool)
    ensures
        r == (a@ == b@),
{
    let n = a.unicode_len();
    if n != b.unicode_len() {
        return false;
    }
    let mut i: usize = 0;
    while i < n
        invariant
            n == a@.len(),
            n == b@.len(),
            i <= n,
            forall|k: int| 0 <= k < i ==> a@[k] == b@[k],
        decreases n - i,
    {
        if a.get_char(i) != b.get_char(i) {
            return false;
        }
        i += 1;
    }
    assert(a@ =~= b@);
    true
}

} // verus!
