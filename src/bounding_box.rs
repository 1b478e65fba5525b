//! Axis-aligned boxes of coordinates.

use crate::location::Location;
use vstd::prelude::*;

verus! {

/// A rectangle given by its south-west and north-east corners.
#[derive(Clone, Copy, Debug, PartialEq, Eq, Structural)]
pub struct BoundingBox {
    min: Location,
    max: Location,
}

/// The smaller of two integers.
pub open spec fn min_of(a: i64, b: i64) -> i64 {
    if a <= b {
        a
    } else {
        b
    }
}

/// The larger of two integers.
pub open spec fn max_of(a: i64, b: i64) -> i64 {
    if a >= b {
        a
    } else {
        b
    }
}

/// `b` is the smallest box holding every location of `s`.
pub open spec fn is_enclosing(b: BoundingBox, s: Seq<Location>) -> bool {
    &&& forall|i: int|
        0 <= i < s.len() ==> {
            &&& b.spec_min().longitude <= #[trigger] s[i].longitude <= b.spec_max().longitude
            &&& b.spec_min().latitude <= s[i].latitude <= b.spec_max().latitude
        }
    &&& exists|i: int| 0 <= i < s.len() && #[trigger] s[i].longitude == b.spec_min().longitude
    &&& exists|i: int| 0 <= i < s.len() && #[trigger] s[i].latitude == b.spec_min().latitude
    &&& exists|i: int| 0 <= i < s.len() && #[trigger] s[i].longitude == b.spec_max().longitude
    &&& exists|i: int| 0 <= i < s.len() && #[trigger] s[i].latitude == b.spec_max().latitude
}

impl BoundingBox {
    /// The south-west corner.
    pub closed spec fn spec_min(self) -> Location {
        self.min
    }

    /// The north-east corner.
    pub closed spec fn spec_max(self) -> Location {
        self.max
    }

    /// Both corners valid, the first south-west of the second.
    pub open spec fn wf(self) -> bool {
        &&& self.spec_min().valid()
        &&& self.spec_max().valid()
        &&& self.spec_min().longitude <= self.spec_max().longitude
        &&& self.spec_min().latitude <= self.spec_max().latitude
    }

    /// Closed-interval overlap on both axes.
    pub open spec fn spec_intersects(self, other: BoundingBox) -> bool {
        &&& self.spec_min().longitude <= other.spec_max().longitude
        &&& other.spec_min().longitude <= self.spec_max().longitude
        &&& self.spec_min().latitude <= other.spec_max().latitude
        &&& other.spec_min().latitude <= self.spec_max().latitude
    }

    /// The box with the given corners.
    pub(crate) fn from_corners(min: Location, max: Location) -> (r: BoundingBox)
        ensures
            r.spec_min() == min,
            r.spec_max() == max,
    {
        BoundingBox { min, max }
    }

    /// The box holding one location only.
    pub fn at(a: &Location) -> (r: BoundingBox)
        requires
            a.valid(),
        ensures
            r.wf(),
            r.spec_min() == *a,
            r.spec_max() == *a,
    {
        BoundingBox { min: *a, max: *a }
    }

    /// The smallest box holding all the locations, or `None` when there
    /// are none.
    pub fn enclosing(locations: Vec<Location>) -> (r: Option<BoundingBox>)
        requires
            forall|i: int| 0 <= i < locations@.len() ==> (#[trigger] locations@[i]).valid(),
        ensures
            locations@.len() == 0 <==> r is None,
            r matches Some(b) ==> b.wf() && is_enclosing(b, locations@),
    {
        if locations.len() == 0 {
            return None;
        }
        let mut bbox = BoundingBox::at(&locations[0]);
        let mut i: usize = 1;
        proof {
            let t = locations@.take(1);
            assert(t[0] == locations@[0]);
        }
        while i < locations.len()
            invariant
                1 <= i <= locations@.len(),
                forall|j: int| 0 <= j < locations@.len() ==> (#[trigger] locations@[j]).valid(),
                bbox.wf(),
                is_enclosing(bbox, locations@.take(i as int)),
            decreases locations.len() - i,
        {
            let ghost before = bbox;
            let ghost t = locations@.take(i as int);
            bbox.encompass(&locations[i]);
            proof {
                let u = locations@.take(i as int + 1);
                assert(u =~= t.push(locations@[i as int]));
                let last = i as int;
                assert forall|k: int| 0 <= k < u.len() implies {
                    &&& bbox.spec_min().longitude <= #[trigger] u[k].longitude
                        <= bbox.spec_max().longitude
                    &&& bbox.spec_min().latitude <= u[k].latitude <= bbox.spec_max().latitude
                } by {
                    if k < last {
                        assert(u[k] == t[k]);
                    }
                }
                let a = choose|k: int| 0 <= k < t.len() && #[trigger] t[k].longitude == before.spec_min().longitude;
                let b = choose|k: int| 0 <= k < t.len() && #[trigger] t[k].latitude == before.spec_min().latitude;
                let c = choose|k: int| 0 <= k < t.len() && #[trigger] t[k].longitude == before.spec_max().longitude;
                let d = choose|k: int| 0 <= k < t.len() && #[trigger] t[k].latitude == before.spec_max().latitude;
                assert(u[a] == t[a] && u[b] == t[b] && u[c] == t[c] && u[d] == t[d]);
                assert(u[last] == locations@[last]);
            }
            i = i + 1;
        }
        proof {
            assert(locations@.take(locations@.len() as int) =~= locations@);
        }
        Some(bbox)
    }

    /// The south-west corner.
    pub fn min(&self) -> (r: &Location)
        ensures
            *r == self.spec_min(),
    {
        &self.min
    }

    /// The north-east corner.
    pub fn max(&self) -> (r: &Location)
        ensures
            *r == self.spec_max(),
    {
        &self.max
    }

    /// The middle of the box, rounded towards the south-west corner.
    pub fn center(&self) -> (r: Location)
        requires
            self.wf(),
        ensures
            r.longitude == self.spec_min().longitude + (self.spec_max().longitude
                - self.spec_min().longitude) / 2,
            r.latitude == self.spec_min().latitude + (self.spec_max().latitude
                - self.spec_min().latitude) / 2,
    {
        Location {
            longitude: self.min.longitude + (self.max.longitude - self.min.longitude) / 2,
            latitude: self.min.latitude + (self.max.latitude - self.min.latitude) / 2,
        }
    }

    /// Whether the two boxes overlap, edges included. Boxes are not wrapped
    /// across the 180th meridian.
    pub fn intersects(&self, other: &BoundingBox) -> (r: bool)
        ensures
            r == self.spec_intersects(*other),
    {
        if self.max.longitude < other.min.longitude || self.max.latitude < other.min.latitude
            || self.min.longitude > other.max.longitude || self.min.latitude
            > other.max.latitude {
            return false;
        }
        true
    }

    /// Widens the box to hold a location.
    pub fn encompass(&mut self, location: &Location)
        requires
            old(self).wf(),
            location.valid(),
        ensures
            final(self).wf(),
            final(self).spec_min().longitude == min_of(
                old(self).spec_min().longitude,
                location.longitude,
            ),
            final(self).spec_min().latitude == min_of(
                old(self).spec_min().latitude,
                location.latitude,
            ),
            final(self).spec_max().longitude == max_of(
                old(self).spec_max().longitude,
                location.longitude,
            ),
            final(self).spec_max().latitude == max_of(
                old(self).spec_max().latitude,
                location.latitude,
            ),
    {
        if location.longitude < self.min.longitude {
            self.min.longitude = location.longitude;
        }
        if location.latitude < self.min.latitude {
            self.min.latitude = location.latitude;
        }
        if location.longitude > self.max.longitude {
            self.max.longitude = location.longitude;
        }
        if location.latitude > self.max.latitude {
            self.max.latitude = location.latitude;
        }
    }
}

} // verus!
