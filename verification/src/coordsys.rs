//! A coordinate frame held as an origin and three axis points; each axis
//! direction is the difference between its point and the origin.

use vstd::prelude::*;

verus! {

use crate::transform::{vec3_bounded, COORD_BOUND};
use crate::vector::{Vec3i64, Vector};

/// A coordinate frame: the origin and one point along each axis.
#[derive(Clone, Copy)]
pub struct CoordSys {
    o: Vec3i64,
    x: Vec3i64,
    y: Vec3i64,
    z: Vec3i64,
}

impl CoordSys {
    /// The origin point of the frame.
    pub closed spec fn o_spec(&self) -> Vec3i64 {
        self.o
    }

    /// The point along the first axis.
    pub closed spec fn x_spec(&self) -> Vec3i64 {
        self.x
    }

    /// The point along the second axis.
    pub closed spec fn y_spec(&self) -> Vec3i64 {
        self.y
    }

    /// The point along the third axis.
    pub closed spec fn z_spec(&self) -> Vec3i64 {
        self.z
    }

    /// All four points lie within the coordinate bound, so axis directions
    /// can be computed without leaving the coordinate range.
    pub open spec fn wf(&self) -> bool {
        &&& vec3_bounded(self.o_spec(), COORD_BOUND as int)
        &&& vec3_bounded(self.x_spec(), COORD_BOUND as int)
        &&& vec3_bounded(self.y_spec(), COORD_BOUND as int)
        &&& vec3_bounded(self.z_spec(), COORD_BOUND as int)
    }

    /// The global frame: the origin at zero, one unit point per axis.
    pub fn global() -> (r: Self)
        ensures
            r.wf(),
            forall|k: int| 0 <= k < 3 ==> #[trigger] r.o_spec()[k] == 0,
            forall|k: int|
                0 <= k < 3 ==> #[trigger] r.x_spec()[k] == (if k == 0 {
                    1int
                } else {
                    0int
                }),
            forall|k: int|
                0 <= k < 3 ==> #[trigger] r.y_spec()[k] == (if k == 1 {
                    1int
                } else {
                    0int
                }),
            forall|k: int|
                0 <= k < 3 ==> #[trigger] r.z_spec()[k] == (if k == 2 {
                    1int
                } else {
                    0int
                }),
    {
        CoordSys { o: [0, 0, 0], x: [1, 0, 0], y: [0, 1, 0], z: [0, 0, 1] }
    }

    #[inline]
    pub fn origin(&self) -> (r: Vec3i64)
        ensures
            r == self.o_spec(),
    {
        self.o
    }

    /// The direction of the first axis: its point minus the origin.
    #[inline]
    pub fn x(&self) -> (r: Vec3i64)
        requires
            self.wf(),
        ensures
            forall|k: int| 0 <= k < 3 ==> #[trigger] r[k] == self.x_spec()[k] - self.o_spec()[k],
    {
        self.x.subv(&self.o)
    }

    #[inline]
    pub fn right(&self) -> (r: Vec3i64)
        requires
            self.wf(),
        ensures
            forall|k: int| 0 <= k < 3 ==> #[trigger] r[k] == self.x_spec()[k] - self.o_spec()[k],
    {
        self.x()
    }

    #[inline]
    pub fn left(&self) -> (r: Vec3i64)
        requires
            self.wf(),
        ensures
            forall|k: int| 0 <= k < 3 ==> #[trigger] r[k] == self.o_spec()[k] - self.x_spec()[k],
    {
        self.x().neg()
    }

    /// The direction of the second axis: its point minus the origin.
    #[inline]
    pub fn y(&self) -> (r: Vec3i64)
        requires
            self.wf(),
        ensures
            forall|k: int| 0 <= k < 3 ==> #[trigger] r[k] == self.y_spec()[k] - self.o_spec()[k],
    {
        self.y.subv(&self.o)
    }

    #[inline]
    pub fn up(&self) -> (r: Vec3i64)
        requires
            self.wf(),
        ensures
            forall|k: int| 0 <= k < 3 ==> #[trigger] r[k] == self.y_spec()[k] - self.o_spec()[k],
    {
        self.y()
    }

    #[inline]
    pub fn down(&self) -> (r: Vec3i64)
        requires
            self.wf(),
        ensures
            forall|k: int| 0 <= k < 3 ==> #[trigger] r[k] == self.o_spec()[k] - self.y_spec()[k],
    {
        self.y().neg()
    }

    /// The direction of the third axis: its point minus the origin.
    #[inline]
    pub fn z(&self) -> (r: Vec3i64)
        requires
            self.wf(),
        ensures
            forall|k: int| 0 <= k < 3 ==> #[trigger] r[k] == self.z_spec()[k] - self.o_spec()[k],
    {
        self.z.subv(&self.o)
    }

    #[inline]
    pub fn front(&self) -> (r: Vec3i64)
        requires
            self.wf(),
        ensures
            forall|k: int| 0 <= k < 3 ==> #[trigger] r[k] == self.z_spec()[k] - self.o_spec()[k],
    {
        self.z()
    }

    #[inline]
    pub fn back(&self) -> (r: Vec3i64)
        requires
            self.wf(),
        ensures
            forall|k: int| 0 <= k < 3 ==> #[trigger] r[k] == self.o_spec()[k] - self.z_spec()[k],
    {
        self.z().neg()
    }
}

} // verus!
