use crate::moves::Move;
use vstd::prelude::*;

verus! {

/// A set of moves still considered valid, one flag per direction.
#[derive(Clone, Copy, Debug, PartialEq, Eq, Structural)]
pub struct MoveSet {
    up: bool,
    down: bool,
    left: bool,
    right: bool,
}

impl MoveSet {
    /// Whether `m` is still valid.
    pub closed spec fn allows(self, m: Move) -> bool {
        match m {
            Move::Up => self.up,
            Move::Down => self.down,
            Move::Left => self.left,
            Move::Right => self.right,
        }
    }

    /// Every move valid.
    pub fn new() -> (r: MoveSet)
        ensures
            forall|m: Move| r.allows(m),
    {
        MoveSet { up: true, down: true, left: true, right: true }
    }

    /// Whether `m` is still valid.
    pub fn contains(&self, m: &Move) -> (r: bool)
        ensures
            r == self.allows(*m),
    {
        match m {
            Move::Up => self.up,
            Move::Down => self.down,
            Move::Left => self.left,
            Move::Right => self.right,
        }
    }

    /// Marks `move_` invalid.
    pub fn invalidate(&mut self, move_: &Move)
        ensures
            forall|m: Move| final(self).allows(m) == (old(self).allows(m) && m != *move_),
    {
        match move_ {
            Move::Up => self.up = false,
            Move::Down => self.down = false,
            Move::Left => self.left = false,
            Move::Right => self.right = false,
        }
    }

    /// Marks invalid every move that is not in `moves`.
    pub fn invalidate_others_many(&mut self, moves: &[Move])
        ensures
            forall|m: Move| final(self).allows(m) == (old(self).allows(m) && moves@.contains(m)),
    {
        let ghost start = *self;
        let mut keep = MoveSet { up: false, down: false, left: false, right: false };
        let mut i: usize = 0;
        while i < moves.len()
            invariant
                i <= moves@.len(),
                keep.up == moves@.take(i as int).contains(Move::Up),
                keep.down == moves@.take(i as int).contains(Move::Down),
                keep.left == moves@.take(i as int).contains(Move::Left),
                keep.right == moves@.take(i as int).contains(Move::Right),
            decreases moves@.len() - i,
        {
            proof {
                assert(moves@.take(i + 1) =~= moves@.take(i as int).push(moves@[i as int]));
                assert forall|m: Move| moves@.take(i + 1).contains(m) == (moves@.take(i as int).contains(m)
                    || m == moves@[i as int]) by {
                    if moves@.take(i + 1).contains(m) {
                        let k = choose|k: int| 0 <= k < i + 1 && #[trigger] moves@.take(i + 1)[k] == m;
                        if k < i {
                            assert(moves@.take(i as int)[k] == m);
                        }
                    }
                    if moves@.take(i as int).contains(m) {
                        let k = choose|k: int| 0 <= k < i && #[trigger] moves@.take(i as int)[k] == m;
                        assert(moves@.take(i + 1)[k] == m);
                    }
                    if m == moves@[i as int] {
                        assert(moves@.take(i + 1)[i as int] == m);
                    }
                }
            }
            match moves[i] {
                Move::Up => keep.up = true,
                Move::Down => keep.down = true,
                Move::Left => keep.left = true,
                Move::Right => keep.right = true,
            }
            i += 1;
        }
        assert(moves@.take(moves@.len() as int) =~= moves@);
        self.up = self.up && keep.up;
        self.down = self.down && keep.down;
        self.left = self.left && keep.left;
        self.right = self.right && keep.right;
        assert forall|m: Move| self.allows(m) == (start.allows(m) && moves@.contains(m)) by {
            match m {
                Move::Up => {},
                Move::Down => {},
                Move::Left => {},
                Move::Right => {},
            }
        }
    }

    /// Each move with its flag, in the order up, down, left, right.
    pub fn entries(&self) -> (r: [(Move, bool); 4])
        ensures
            r@ == seq![
                (Move::Up, self.allows(Move::Up)),
                (Move::Down, self.allows(Move::Down)),
                (Move::Left, self.allows(Move::Left)),
                (Move::Right, self.allows(Move::Right)),
            ],
    {
        let r = [(Move::Up, self.up), (Move::Down, self.down), (Move::Left, self.left), (Move::Right, self.right)];
        assert(r@ =~= seq![
            (Move::Up, self.up),
            (Move::Down, self.down),
            (Move::Left, self.left),
            (Move::Right, self.right),
        ]);
        r
    }
}

/// A value with an integer priority, ordered by the priority alone.
#[derive(Clone, Debug)]
pub struct HeapItem<T> {
    pub value: T,
    pub priority: i32,
}

impl<T> HeapItem<T> {
    pub fn new(value: T, priority: i32) -> (r: HeapItem<T>)
        ensures
            r.value == value,
            r.priority == priority,
    {
        HeapItem { value, priority }
    }

    pub fn priority(&self) -> (r: i32)
        ensures
            r == self.priority,
    {
        self.priority
    }
}

} // verus!
