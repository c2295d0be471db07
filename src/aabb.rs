use vstd::prelude::*;

verus! {

/// A point of three order keys, one per axis.
#[derive(Clone, Copy, Debug, PartialEq, Eq, Structural)]
pub struct Corner {
    pub x: u64,
    pub y: u64,
    pub z: u64,
}

impl Corner {
    pub open spec fn coord(self, axis: int) -> u64 {
        if axis == 0 {
            self.x
        } else if axis == 1 {
            self.y
        } else {
            self.z
        }
    }

    pub fn new(x: u64, y: u64, z: u64) -> (r: Corner)
        ensures
            r.x == x,
            r.y == y,
            r.z == z,
    {
        Corner { x, y, z }
    }

    /// The key on axis 0 (x), 1 (y) or 2 (z).
    pub fn get(&self, axis: usize) -> (r: u64)
        requires
            axis < 3,
        ensures
            r == self.coord(axis as int),
    {
        if axis == 0 {
            self.x
        } else if axis == 1 {
            self.y
        } else {
            self.z
        }
    }
}

pub open spec fn min_u64(a: u64, b: u64) -> u64 {
    if a <= b { a } else { b }
}

pub open spec fn max_u64(a: u64, b: u64) -> u64 {
    if a >= b { a } else { b }
}

/// An axis-aligned bounding box given by its minimum and maximum corners.
#[derive(Clone, Copy, Debug, PartialEq, Eq, Structural)]
pub struct Aabb {
    pub min: Corner,
    pub max: Corner,
}

impl Aabb {
    /// The box is not inverted: `min` lies below `max` on every axis.
    pub open spec fn wf(self) -> bool {
        &&& self.min.x <= self.max.x
        &&& self.min.y <= self.max.y
        &&& self.min.z <= self.max.z
    }

    /// Every point of `other` lies in `self`.
    pub open spec fn encloses(self, other: Aabb) -> bool {
        &&& self.min.x <= other.min.x
        &&& self.min.y <= other.min.y
        &&& self.min.z <= other.min.z
        &&& other.max.x <= self.max.x
        &&& other.max.y <= self.max.y
        &&& other.max.z <= self.max.z
    }

    /// The smallest box that holds both boxes: min of mins, max of maxes.
    pub open spec fn hull(self, other: Aabb) -> Aabb {
        Aabb {
            min: Corner {
                x: min_u64(self.min.x, other.min.x),
                y: min_u64(self.min.y, other.min.y),
                z: min_u64(self.min.z, other.min.z),
            },
            max: Corner {
                x: max_u64(self.max.x, other.max.x),
                y: max_u64(self.max.y, other.max.y),
                z: max_u64(self.max.z, other.max.z),
            },
        }
    }

    pub fn new(min: Corner, max: Corner) -> (r: Aabb)
        ensures
            r.min == min,
            r.max == max,
    {
        Aabb { min, max }
    }

    /// The box that holds both `self` and `other` exactly.
    pub fn union(&self, other: &Aabb) -> (r: Aabb)
        ensures
            r == self.hull(*other),
    {
        Aabb {
            min: Corner {
                x: if self.min.x <= other.min.x { self.min.x } else { other.min.x },
                y: if self.min.y <= other.min.y { self.min.y } else { other.min.y },
                z: if self.min.z <= other.min.z { self.min.z } else { other.min.z },
            },
            max: Corner {
                x: if self.max.x >= other.max.x { self.max.x } else { other.max.x },
                y: if self.max.y >= other.max.y { self.max.y } else { other.max.y },
                z: if self.max.z >= other.max.z { self.max.z } else { other.max.z },
            },
        }
    }

    /// Whether every point of `other` lies in `self`.
    pub fn contains(&self, other: &Aabb) -> (r: bool)
        ensures
            r == self.encloses(*other),
    {
        self.min.x <= other.min.x && self.min.y <= other.min.y && self.min.z <= other.min.z
            && other.max.x <= self.max.x && other.max.y <= self.max.y && other.max.z
            <= self.max.z
    }
}

/// The union of two boxes holds both of them, and is held by every box that
/// holds both: it is exactly the min of the minimum corners and the max of
/// the maximum corners. The union of two well-formed boxes is well formed.
pub proof fn lemma_union_is_least_enclosing(a: Aabb, b: Aabb, c: Aabb)
    ensures
        a.hull(b).encloses(a),
        a.hull(b).encloses(b),
        a.hull(b) == b.hull(a),
        c.encloses(a) && c.encloses(b) ==> c.encloses(a.hull(b)),
        a.wf() && b.wf() ==> a.hull(b).wf(),
{
}

/// Enclosing is transitive.
pub proof fn lemma_encloses_trans(a: Aabb, b: Aabb, c: Aabb)
    requires
        a.encloses(b),
        b.encloses(c),
    ensures
        a.encloses(c),
{
}

} // verus!

verus! {

/// The box around every box of the list, skipping the entries that have none;
/// `None` when no entry has a box.
pub open spec fn hull_of(s: Seq<Option<Aabb>>) -> Option<Aabb>
    decreases s.len(),
{
    if s.len() == 0 {
        None
    } else {
        let acc = hull_of(s.drop_last());
        match s.last() {
            None => acc,
            Some(b) => match acc {
                None => Some(b),
                Some(a) => Some(a.hull(b)),
            },
        }
    }
}

/// The bounding box of a list of primitives whose boxes are given: the union
/// of every box present; `None` for an empty list or one where no primitive
/// has a box.
pub fn enclosing_box(boxes: &Vec<Option<Aabb>>) -> (r: Option<Aabb>)
    ensures
        r == hull_of(boxes@),
{
    let mut acc: Option<Aabb> = None;
    let mut i: usize = 0;
    while i < boxes.len()
        invariant
            i <= boxes@.len(),
            acc == hull_of(boxes@.subrange(0, i as int)),
        decreases boxes@.len() - i,
    {
        assert(boxes@.subrange(0, i + 1).drop_last() =~= boxes@.subrange(0, i as int));
        match boxes[i] {
            None => {},
            Some(b) => {
                acc = match acc {
                    None => Some(b),
                    Some(a) => Some(a.union(&b)),
                };
            },
        }
        i = i + 1;
    }
    assert(boxes@.subrange(0, boxes@.len() as int) =~= boxes@);
    acc
}

} // verus!
