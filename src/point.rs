use vstd::prelude::*;

verus! {

/// A cell of the grid, by integer coordinates. `y` grows upwards.
#[derive(Clone, Copy, Debug, PartialEq, Eq, Hash, Structural)]
pub struct Point {
    pub x: i32,
    pub y: i32,
}

/// A coordinate on the board; the same value type as `Point`.
pub type Coord = Point;

pub open spec fn abs(v: int) -> int {
    if v < 0 {
        -v
    } else {
        v
    }
}

impl Point {
    /// Both coordinates can be moved one step in every direction without overflow.
    pub open spec fn steppable(self) -> bool {
        i32::MIN < self.x < i32::MAX && i32::MIN < self.y < i32::MAX
    }

    pub open spec fn at(x: int, y: int) -> Point {
        Point { x: x as i32, y: y as i32 }
    }

    /// The four orthogonal neighbours, in the order up, down, left, right.
    pub open spec fn neighbors_spec(self) -> Seq<Point> {
        seq![
            Point::at(self.x as int, self.y + 1),
            Point::at(self.x as int, self.y - 1),
            Point::at(self.x - 1, self.y as int),
            Point::at(self.x + 1, self.y as int),
        ]
    }

    /// Manhattan distance.
    pub open spec fn distance_spec(self, other: Point) -> int {
        abs(self.x - other.x) + abs(self.y - other.y)
    }

    pub fn new(x: i32, y: i32) -> (r: Point)
        ensures
            r == (Point { x, y }),
    {
        Point { x, y }
    }

    /// The four orthogonal neighbours (up, down, left, right).
    pub fn neighbors(&self) -> (r: Vec<Point>)
        requires
            self.steppable(),
        ensures
            r@ == self.neighbors_spec(),
    {
        let r = vec![
            Point { x: self.x, y: self.y + 1 },
            Point { x: self.x, y: self.y - 1 },
            Point { x: self.x - 1, y: self.y },
            Point { x: self.x + 1, y: self.y },
        ];
        assert(r@ =~= self.neighbors_spec());
        r
    }

    /// The four orthogonal neighbours (up, down, left, right).
    pub fn ortho_neighbors(&self) -> (r: Vec<Point>)
        requires
            self.steppable(),
        ensures
            r@ == self.neighbors_spec(),
    {
        self.neighbors()
    }

    /// The Manhattan distance to `other`.
    pub fn distance(&self, other: &Point) -> (r: u32)
        requires
            self.distance_spec(*other) <= u32::MAX,
        ensures
            r == self.distance_spec(*other),
    {
        let dx: i64 = self.x as i64 - other.x as i64;
        let dy: i64 = self.y as i64 - other.y as i64;
        let ax: i64 = if dx < 0 { -dx } else { dx };
        let ay: i64 = if dy < 0 { -dy } else { dy };
        (ax + ay) as u32
    }

    /// The Manhattan distance to `other`.
    pub fn manhattan_distance(&self, other: &Point) -> (r: u32)
        requires
            self.distance_spec(*other) <= u32::MAX,
        ensures
            r == self.distance_spec(*other),
    {
        self.distance(other)
    }

    /// The smallest distance from this point to any of `points`; `None` when there are none.
    pub fn closest_distance(&self, points: &[Point]) -> (r: Option<u32>)
        requires
            forall|i: int| 0 <= i < points@.len() ==> self.distance_spec(#[trigger] points@[i]) <= u32::MAX,
        ensures
            r.is_none() <==> points@.len() == 0,
            r matches Some(d) ==> {
                &&& exists|i: int| 0 <= i < points@.len() && d == self.distance_spec(#[trigger] points@[i])
                &&& forall|i: int| 0 <= i < points@.len() ==> d <= self.distance_spec(#[trigger] points@[i])
            },
    {
        let mut best: Option<u32> = None;
        let mut i: usize = 0;
        while i < points.len()
            invariant
                i <= points@.len(),
                forall|k: int| 0 <= k < points@.len() ==> self.distance_spec(#[trigger] points@[k]) <= u32::MAX,
                best.is_none() <==> i == 0,
                best matches Some(d) ==> {
                    &&& exists|k: int| 0 <= k < i && d == self.distance_spec(#[trigger] points@[k])
                    &&& forall|k: int| 0 <= k < i ==> d <= self.distance_spec(#[trigger] points@[k])
                },
            decreases points@.len() - i,
        {
            let d = self.distance(&points[i]);
            match best {
                Some(b) if b <= d => {},
                _ => {
                    best = Some(d);
                },
            }
            i += 1;
        }
        best
    }
}

} // verus!
