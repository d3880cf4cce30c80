//! Lattice points, the four unit directions, and undirected edges.

use vstd::prelude::*;

verus! {

/// A point of the integer lattice.
#[derive(Clone, Copy, Debug, PartialEq, Eq, Structural)]
pub struct LatticePoint {
    pub x: i32,
    pub y: i32,
}

/// One of the four unit moves, in the order in which neighbours are
/// enumerated everywhere in this crate: `+x`, `-x`, `+y`, `-y`.
#[derive(Clone, Copy, Debug, PartialEq, Eq, Structural)]
pub enum Direction {
    PlusX,
    MinusX,
    PlusY,
    MinusY,
}

/// The identity of an undirected edge: its two endpoints, the smaller one
/// (by `x`, then by `y`) first.
#[derive(Clone, Copy, Debug, PartialEq, Eq, Structural)]
pub struct EdgeKey {
    pub low: LatticePoint,
    pub high: LatticePoint,
}

impl Direction {
    /// Position of the direction in the enumeration order.
    pub open spec fn index(self) -> int {
        match self {
            Direction::PlusX => 0,
            Direction::MinusX => 1,
            Direction::PlusY => 2,
            Direction::MinusY => 3,
        }
    }

    /// The direction at position `i`; every `i` above 2 names `-y`.
    pub open spec fn at(i: int) -> Direction {
        if i == 0 {
            Direction::PlusX
        } else if i == 1 {
            Direction::MinusX
        } else if i == 2 {
            Direction::PlusY
        } else {
            Direction::MinusY
        }
    }

    /// The direction at position `i` of the enumeration order. Positions
    /// above 2 all give `-y`, so that any drawn number names a direction.
    pub fn from_index(i: usize) -> (d: Direction)
        ensures
            d == Direction::at(i as int),
            i < 4 ==> d.index() == i,
    {
        if i == 0 {
            Direction::PlusX
        } else if i == 1 {
            Direction::MinusX
        } else if i == 2 {
            Direction::PlusY
        } else {
            Direction::MinusY
        }
    }
}

impl LatticePoint {
    /// The starting point of every walk.
    pub open spec fn spec_origin() -> LatticePoint {
        LatticePoint { x: 0, y: 0 }
    }

    /// Lexicographic order: by `x`, then by `y`.
    pub open spec fn le(self, other: LatticePoint) -> bool {
        self.x < other.x || (self.x == other.x && self.y <= other.y)
    }

    /// Both coordinates have room for a unit move in either direction.
    pub open spec fn interior(self) -> bool {
        i32::MIN < self.x < i32::MAX && i32::MIN < self.y < i32::MAX
    }

    /// Both coordinates lie within `radius` of zero.
    pub open spec fn within(self, radius: int) -> bool {
        -radius <= self.x <= radius && -radius <= self.y <= radius
    }

    /// The point one unit away in direction `d`.
    pub open spec fn moved(self, d: Direction) -> LatticePoint
        recommends
            self.interior(),
    {
        match d {
            Direction::PlusX => LatticePoint { x: (self.x + 1) as i32, y: self.y },
            Direction::MinusX => LatticePoint { x: (self.x - 1) as i32, y: self.y },
            Direction::PlusY => LatticePoint { x: self.x, y: (self.y + 1) as i32 },
            Direction::MinusY => LatticePoint { x: self.x, y: (self.y - 1) as i32 },
        }
    }

    /// The four neighbours in enumeration order.
    pub open spec fn spec_neighbors(self) -> Seq<LatticePoint>
        recommends
            self.interior(),
    {
        seq![
            self.moved(Direction::PlusX),
            self.moved(Direction::MinusX),
            self.moved(Direction::PlusY),
            self.moved(Direction::MinusY),
        ]
    }

    /// The two points differ by exactly one unit in exactly one coordinate.
    pub open spec fn adjacent(self, other: LatticePoint) -> bool {
        ||| (self.y == other.y && (other.x - self.x == 1 || self.x - other.x == 1))
        ||| (self.x == other.x && (other.y - self.y == 1 || self.y - other.y == 1))
    }

    #[verifier::when_used_as_spec(spec_origin)]
    pub fn origin() -> (p: LatticePoint)
        ensures
            p == LatticePoint::spec_origin(),
    {
        LatticePoint { x: 0, y: 0 }
    }

    /// Moves one unit in direction `d`.
    pub fn step(self, d: Direction) -> (p: LatticePoint)
        requires
            self.interior(),
        ensures
            p == self.moved(d),
            self.adjacent(p),
    {
        match d {
            Direction::PlusX => LatticePoint { x: self.x + 1, y: self.y },
            Direction::MinusX => LatticePoint { x: self.x - 1, y: self.y },
            Direction::PlusY => LatticePoint { x: self.x, y: self.y + 1 },
            Direction::MinusY => LatticePoint { x: self.x, y: self.y - 1 },
        }
    }

    /// The four neighbours of the point, in the order `+x`, `-x`, `+y`, `-y`.
    pub fn neighbors(self) -> (around: [LatticePoint; 4])
        requires
            self.interior(),
        ensures
            around@ == self.spec_neighbors(),
            forall|i: int| 0 <= i < 4 ==> self.adjacent(#[trigger] around@[i]),
    {
        [
            LatticePoint { x: self.x + 1, y: self.y },
            LatticePoint { x: self.x - 1, y: self.y },
            LatticePoint { x: self.x, y: self.y + 1 },
            LatticePoint { x: self.x, y: self.y - 1 },
        ]
    }
}

impl EdgeKey {
    /// The endpoints are in order.
    pub open spec fn canonical(self) -> bool {
        self.low.le(self.high)
    }

    /// The key of the edge between `a` and `b`, whichever is named first.
    pub open spec fn between(a: LatticePoint, b: LatticePoint) -> EdgeKey {
        if a.le(b) {
            EdgeKey { low: a, high: b }
        } else {
            EdgeKey { low: b, high: a }
        }
    }
}

/// Canonical key of the edge that joins `a` and `b`. The two points are not
/// checked for adjacency; any pair gets a key, and the same key in either
/// order.
pub fn edge_key(a: LatticePoint, b: LatticePoint) -> (key: EdgeKey)
    ensures
        key == EdgeKey::between(a, b),
        key == EdgeKey::between(b, a),
        key.canonical(),
{
    if a.x < b.x || (a.x == b.x && a.y <= b.y) {
        EdgeKey { low: a, high: b }
    } else {
        EdgeKey { low: b, high: a }
    }
}

/// An edge has one key, whichever endpoint is named first.
pub proof fn lemma_edge_key_symmetric(a: LatticePoint, b: LatticePoint)
    ensures
        EdgeKey::between(a, b) == EdgeKey::between(b, a),
        EdgeKey::between(a, b).canonical(),
{
}

/// A unit move leads to an adjacent point, and the `i`-th neighbour is the
/// point reached by the `i`-th direction.
pub proof fn lemma_neighbors_are_moves(p: LatticePoint, i: int)
    requires
        p.interior(),
        0 <= i < 4,
    ensures
        p.spec_neighbors()[i] == p.moved(Direction::at(i)),
        p.adjacent(p.spec_neighbors()[i]),
{
}

} // verus!
