//! An inclusive 2D area given by a minimum and maximum coordinate pair.

use vstd::prelude::*;

verus! {

/// A 2D area represented by a min + max coordinate pair.
///
/// The two coordinates form an _inclusive_ 2D range: a point with
/// `i == i_max` is contained in the area.
#[derive(Clone, Copy, Debug, PartialEq, Eq, Structural)]
pub struct BoundingBox {
    pub i_min: i8,
    pub j_min: i8,
    pub i_max: i8,
    pub j_max: i8,
}

impl BoundingBox {
    /// Whether the point lies in the area.
    pub open spec fn spec_contains(self, i: int, j: int) -> bool {
        self.i_min <= i <= self.i_max && self.j_min <= j <= self.j_max
    }

    /// Whether the point lies in the area.
    pub fn contains(&self, i: i8, j: i8) -> (r: bool)
        ensures
            r == self.spec_contains(i as int, j as int),
    {
        i >= self.i_min && j >= self.j_min && i <= self.i_max && j <= self.j_max
    }

    /// The smallest area containing a single point.
    pub fn singleton(i: i8, j: i8) -> (r: Self)
        ensures
            r == (BoundingBox { i_min: i, j_min: j, i_max: i, j_max: j }),
    {
        Self { i_min: i, j_min: j, i_max: i, j_max: j }
    }

    /// The smallest area containing all the given points, or `None` when
    /// there are none.
    pub fn from_coordinates_iter(coords: &Vec<(i8, i8)>) -> (r: Option<Self>)
        ensures
            match r {
                None => coords@.len() == 0,
                Some(b) => {
                    &&& coords@.len() > 0
                    &&& forall|k: int|
                        0 <= k < coords@.len() ==> b.spec_contains(
                            #[trigger] coords@[k].0 as int,
                            coords@[k].1 as int,
                        )
                    &&& exists|k: int| 0 <= k < coords@.len() && #[trigger] coords@[k].0 == b.i_min
                    &&& exists|k: int| 0 <= k < coords@.len() && #[trigger] coords@[k].0 == b.i_max
                    &&& exists|k: int| 0 <= k < coords@.len() && #[trigger] coords@[k].1 == b.j_min
                    &&& exists|k: int| 0 <= k < coords@.len() && #[trigger] coords@[k].1 == b.j_max
                },
            },
    {
        if coords.len() == 0 {
            return None;
        }
        let (i0, j0) = coords[0];
        let mut b = Self { i_min: i0, j_min: j0, i_max: i0, j_max: j0 };
        let n = coords.len();
        for pos in 1..n
            invariant
                n == coords@.len(),
                0 < n,
                forall|k: int|
                    0 <= k < pos ==> b.spec_contains(
                        #[trigger] coords@[k].0 as int,
                        coords@[k].1 as int,
                    ),
                exists|k: int| 0 <= k < pos && #[trigger] coords@[k].0 == b.i_min,
                exists|k: int| 0 <= k < pos && #[trigger] coords@[k].0 == b.i_max,
                exists|k: int| 0 <= k < pos && #[trigger] coords@[k].1 == b.j_min,
                exists|k: int| 0 <= k < pos && #[trigger] coords@[k].1 == b.j_max,
        {
            let (i, j) = coords[pos];
            b.update(i, j);
        }
        Some(b)
    }

    /// Expands the bounding box to cover the point `(i, j)`.
    pub fn update(&mut self, i: i8, j: i8)
        ensures
            final (self).i_min == if i < old(self).i_min {
                i
            } else {
                old(self).i_min
            },
            final (self).i_max == if i > old(self).i_max {
                i
            } else {
                old(self).i_max
            },
            final (self).j_min == if j < old(self).j_min {
                j
            } else {
                old(self).j_min
            },
            final (self).j_max == if j > old(self).j_max {
                j
            } else {
                old(self).j_max
            },
    {
        if i < self.i_min {
            self.i_min = i;
        }
        if i > self.i_max {
            self.i_max = i;
        }
        if j < self.j_min {
            self.j_min = j;
        }
        if j > self.j_max {
            self.j_max = j;
        }
    }
}

} // verus!
