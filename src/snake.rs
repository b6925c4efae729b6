use crate::moves::Move;
use crate::point::Point;
use vstd::prelude::*;

verus! {

/// The identifier of an agent: the 24 significant bytes of its `gs_`-prefixed name.
#[derive(Clone, Copy, Debug, Eq, Hash)]
pub struct SnakeID {
    pub id: [u8; 24],
}

impl PartialEq for SnakeID {
    fn eq(&self, other: &SnakeID) -> (r: bool) {
        let mut i: usize = 0;
        while i < 24
            invariant
                i <= 24,
                forall|k: int| 0 <= k < i ==> self.id@[k] == other.id@[k],
            decreases 24 - i,
        {
            if self.id[i] != other.id[i] {
                return false;
            }
            i += 1;
        }
        assert(self.id@ =~= other.id@);
        proof {
            vstd::array::axiom_array_ext_equal(self.id, other.id);
        }
        true
    }
}

impl vstd::std_specs::cmp::PartialEqSpecImpl for SnakeID {
    open spec fn obeys_eq_spec() -> bool {
        true
    }

    open spec fn eq_spec(&self, other: &SnakeID) -> bool {
        *self == *other
    }
}

impl SnakeID {
    pub fn new(id: [u8; 24]) -> (r: SnakeID)
        ensures
            r.id == id,
    {
        SnakeID { id }
    }

    /// The identifier whose significant bytes are `bytes`; `None` unless there are exactly 24.
    pub fn from_bytes(bytes: &[u8]) -> (r: Option<SnakeID>)
        ensures
            r.is_some() <==> bytes@.len() == 24,
            r matches Some(s) ==> s.id@ == bytes@,
    {
        if bytes.len() != 24 {
            return None;
        }
        let mut id: [u8; 24] = [0u8; 24];
        let mut i: usize = 0;
        while i < 24
            invariant
                bytes@.len() == 24,
                i <= 24,
                forall|k: int| 0 <= k < i ==> id@[k] == bytes@[k],
            decreases 24 - i,
        {
            id[i] = bytes[i];
            i += 1;
        }
        assert(id@ =~= bytes@);
        Some(SnakeID { id })
    }
}

/// The mathematical content of an agent.
pub struct SnakeView {
    pub id: SnakeID,
    pub health: int,
    pub body: Seq<Point>,
    pub head: Point,
    pub length: int,
}

/// An agent: identity, health, and body cells from head to tail.
#[derive(Debug)]
pub struct Snake {
    pub id: SnakeID,
    /// Health; the agent dies once it is zero or below.
    pub health: i32,
    /// Body cells, head first.
    pub body: Vec<Point>,
    pub head: Point,
    /// Logical length, which counts growth.
    pub length: u32,
    /// Squad name, in squad games.
    pub squad: Option<String>,
}

impl View for Snake {
    type V = SnakeView;

    open spec fn view(&self) -> SnakeView {
        SnakeView {
            id: self.id,
            health: self.health as int,
            body: self.body@,
            head: self.head,
            length: self.length as int,
        }
    }
}

impl SnakeView {
    /// The body is non-empty and starts at the head.
    pub open spec fn wf(self) -> bool {
        self.body.len() > 0 && self.body[0] == self.head
    }

    pub open spec fn tail(self) -> Point {
        self.body.last()
    }
}

/// The views of a sequence of agents.
pub open spec fn views(s: Seq<Snake>) -> Seq<SnakeView> {
    Seq::new(s.len(), |i: int| s[i]@)
}

/// The views of a sequence of borrowed agents.
pub open spec fn ref_views(s: Seq<&Snake>) -> Seq<SnakeView> {
    Seq::new(s.len(), |i: int| s[i]@)
}

impl Snake {
    /// A copy of this agent with the same content.
    pub fn duplicate(&self) -> (r: Snake)
        ensures
            r@ == self@,
    {
        let body = self.body.clone();
        assert(body@ =~= self.body@);
        let squad = match &self.squad {
            Some(s) => Some(s.clone()),
            None => None,
        };
        Snake { id: self.id, health: self.health, body, head: self.head, length: self.length, squad }
    }

    /// The last body cell.
    pub fn tail(&self) -> (r: Point)
        requires
            self.body@.len() > 0,
        ensures
            r == self.body@.last(),
    {
        self.body[self.body.len() - 1]
    }

    /// The move that brought the head to where it is, read from the first two body cells.
    pub fn previous_move(&self) -> (r: Move)
        requires
            self.body@.len() >= 2,
            Move::between(self.body@[1], self.head).is_some(),
        ensures
            Some(r) == Move::between(self.body@[1], self.head),
    {
        match Move::from_points(&self.body[1], &self.head) {
            Some(m) => m,
            None => Move::Up,
        }
    }
}

} // verus!
