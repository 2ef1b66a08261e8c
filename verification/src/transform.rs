//! Affine transforms on integer coordinates: four-by-four matrices, their
//! composition, and their application to vertex lists.

use vstd::prelude::*;

verus! {

use crate::vector::Vec3i64;

/// A four-by-four transform matrix, row major.
pub type Mat4 = [[i64; 4]; 4];

/// The largest magnitude of a matrix entry or coordinate for which the
/// products and four-term sums of the transform arithmetic stay in range.
pub const COORD_BOUND: i64 = 0x40000000;

/// Every entry of `m` has magnitude at most `b`.
pub open spec fn mat_bounded(m: Mat4, b: int) -> bool {
    forall|i: int, j: int| 0 <= i < 4 && 0 <= j < 4 ==> -b <= #[trigger] m[i][j] <= b
}

/// Every component of `v` has magnitude at most `b`.
pub open spec fn vec3_bounded(v: Vec3i64, b: int) -> bool {
    forall|i: int| 0 <= i < 3 ==> -b <= #[trigger] v[i] <= b
}

/// The entry at row `i`, column `j` of the matrix product `m1 * m2`.
pub open spec fn mm_entry(m1: Mat4, m2: Mat4, i: int, j: int) -> int {
    m1[i][0] * m2[0][j] + m1[i][1] * m2[1][j] + m1[i][2] * m2[2][j] + m1[i][3] * m2[3][j]
}

/// Component `j` of the affine image of the vertex `v` under `m`: the
/// linear part applied to `v`, plus the translation column.
pub open spec fn affine_entry(m: Mat4, v: Vec3i64, j: int) -> int {
    m[j][0] * v[0] + m[j][1] * v[1] + m[j][2] * v[2] + m[j][3]
}

/// The entry of the identity matrix.
pub open spec fn ident_entry(i: int, j: int) -> int {
    if i == j {
        1
    } else {
        0
    }
}

/// The entry of the translation matrix by `v`.
pub open spec fn translate_entry(v: Vec3i64, i: int, j: int) -> int {
    if j == 3 && i < 3 {
        v[i] as int
    } else {
        ident_entry(i, j)
    }
}

/// The entry of the scaling matrix by `v`.
pub open spec fn zoom_entry(v: Vec3i64, i: int, j: int) -> int {
    if i == j {
        if i < 3 {
            v[i] as int
        } else {
            1
        }
    } else {
        0
    }
}

/// One entry of a matrix product, computed exactly on wide intermediates.
fn mul_entry(m1: &Mat4, m2: &Mat4, i: usize, j: usize) -> (r: i64)
    requires
        i < 4,
        j < 4,
        mat_bounded(*m1, COORD_BOUND as int),
        mat_bounded(*m2, COORD_BOUND as int),
    ensures
        r == mm_entry(*m1, *m2, i as int, j as int),
{
    proof {
        assert forall|a: i64, b: i64|
            -(COORD_BOUND as int) <= a <= COORD_BOUND && -(COORD_BOUND as int) <= b
                <= COORD_BOUND implies -(0x1000000000000000int) <= #[trigger] (a as int * b)
            <= 0x1000000000000000int by {
            assert(-(0x1000000000000000int) <= a as int * b <= 0x1000000000000000int)
                by (nonlinear_arith)
                requires
                    -(0x40000000int) <= a <= 0x40000000int,
                    -(0x40000000int) <= b <= 0x40000000int;
        }
    }
    let v = m1[i][0] as i128 * m2[0][j] as i128 + m1[i][1] as i128 * m2[1][j] as i128 + m1[i][2]
        as i128 * m2[2][j] as i128 + m1[i][3] as i128 * m2[3][j] as i128;
    v as i64
}

/// The matrix product `m1 * m2`, exact in every entry.
pub fn mul(m1: &Mat4, m2: &Mat4) -> (r: Mat4)
    requires
        mat_bounded(*m1, COORD_BOUND as int),
        mat_bounded(*m2, COORD_BOUND as int),
    ensures
        forall|i: int, j: int|
            0 <= i < 4 && 0 <= j < 4 ==> #[trigger] r[i][j] == mm_entry(*m1, *m2, i, j),
{
    [
        [
            mul_entry(m1, m2, 0, 0),
            mul_entry(m1, m2, 0, 1),
            mul_entry(m1, m2, 0, 2),
            mul_entry(m1, m2, 0, 3),
        ],
        [
            mul_entry(m1, m2, 1, 0),
            mul_entry(m1, m2, 1, 1),
            mul_entry(m1, m2, 1, 2),
            mul_entry(m1, m2, 1, 3),
        ],
        [
            mul_entry(m1, m2, 2, 0),
            mul_entry(m1, m2, 2, 1),
            mul_entry(m1, m2, 2, 2),
            mul_entry(m1, m2, 2, 3),
        ],
        [
            mul_entry(m1, m2, 3, 0),
            mul_entry(m1, m2, 3, 1),
            mul_entry(m1, m2, 3, 2),
            mul_entry(m1, m2, 3, 3),
        ],
    ]
}

/// The identity transform.
pub fn e() -> (r: Mat4)
    ensures
        forall|i: int, j: int| 0 <= i < 4 && 0 <= j < 4 ==> #[trigger] r[i][j] == ident_entry(i, j),
        mat_bounded(r, COORD_BOUND as int),
{
    [[1, 0, 0, 0], [0, 1, 0, 0], [0, 0, 1, 0], [0, 0, 0, 1]]
}

/// The translation by `v`.
pub fn translate(v: Vec3i64) -> (r: Mat4)
    ensures
        forall|i: int, j: int|
            0 <= i < 4 && 0 <= j < 4 ==> #[trigger] r[i][j] == translate_entry(v, i, j),
        vec3_bounded(v, COORD_BOUND as int) ==> mat_bounded(r, COORD_BOUND as int),
{
    [[1, 0, 0, v[0]], [0, 1, 0, v[1]], [0, 0, 1, v[2]], [0, 0, 0, 1]]
}

/// The scaling by `v`, one factor per axis.
pub fn zoom(v: Vec3i64) -> (r: Mat4)
    ensures
        forall|i: int, j: int|
            0 <= i < 4 && 0 <= j < 4 ==> #[trigger] r[i][j] == zoom_entry(v, i, j),
        vec3_bounded(v, COORD_BOUND as int) ==> mat_bounded(r, COORD_BOUND as int),
{
    [[v[0], 0, 0, 0], [0, v[1], 0, 0], [0, 0, v[2], 0], [0, 0, 0, 1]]
}

/// A transform held as its matrix, composed on the left.
#[derive(Clone, Copy)]
pub struct Transform {
    t: Mat4,
}

impl Transform {
    /// The matrix of the transform.
    pub closed spec fn mat(&self) -> Mat4 {
        self.t
    }

    pub fn new(t: Mat4) -> (r: Self)
        ensures
            r.mat() == t,
    {
        Transform { t }
    }

    /// The identity transform.
    pub fn e() -> (r: Self)
        ensures
            forall|i: int, j: int|
                0 <= i < 4 && 0 <= j < 4 ==> #[trigger] r.mat()[i][j] == ident_entry(i, j),
            mat_bounded(r.mat(), COORD_BOUND as int),
    {
        Transform { t: e() }
    }

    /// The transform followed by the scaling by `v`.
    pub fn zoom(self, v: Vec3i64) -> (r: Self)
        requires
            mat_bounded(self.mat(), COORD_BOUND as int),
            vec3_bounded(v, COORD_BOUND as int),
        ensures
            forall|i: int, j: int|
                0 <= i < 4 && 0 <= j < 4 ==> #[trigger] r.mat()[i][j] == mm_entry_zoom(
                    v,
                    self.mat(),
                    i,
                    j,
                ),
    {
        Transform { t: crate::transform::mul(&zoom(v), &self.t) }
    }

    /// The transform followed by the translation by `v`.
    pub fn translate(self, v: Vec3i64) -> (r: Self)
        requires
            mat_bounded(self.mat(), COORD_BOUND as int),
            vec3_bounded(v, COORD_BOUND as int),
        ensures
            forall|i: int, j: int|
                0 <= i < 4 && 0 <= j < 4 ==> #[trigger] r.mat()[i][j] == mm_entry_translate(
                    v,
                    self.mat(),
                    i,
                    j,
                ),
    {
        Transform { t: crate::transform::mul(&translate(v), &self.t) }
    }

    /// Apply the transform to every vertex in place, exactly.
    pub fn transform(self, vs: &mut Vec<Vec3i64>)
        requires
            mat_bounded(self.mat(), COORD_BOUND as int),
            forall|i: int|
                0 <= i < old(vs)@.len() ==> vec3_bounded(#[trigger] old(vs)@[i], COORD_BOUND as int),
        ensures
            final(vs)@.len() == old(vs)@.len(),
            forall|i: int, j: int|
                0 <= i < old(vs)@.len() && 0 <= j < 3 ==> #[trigger] final(vs)@[i][j]
                    == affine_entry(self.mat(), old(vs)@[i], j),
    {
        let n = vs.len();
        let mut i: usize = 0;
        while i < n
            invariant
                i <= n,
                n == vs@.len(),
                n == old(vs)@.len(),
                mat_bounded(self.mat(), COORD_BOUND as int),
                forall|k: int|
                    0 <= k < old(vs)@.len() ==> vec3_bounded(
                        #[trigger] old(vs)@[k],
                        COORD_BOUND as int,
                    ),
                forall|k: int| i <= k < n ==> #[trigger] vs@[k] == old(vs)@[k],
                forall|k: int, j: int|
                    0 <= k < i && 0 <= j < 3 ==> #[trigger] vs@[k][j] == affine_entry(
                        self.mat(),
                        old(vs)@[k],
                        j,
                    ),
            decreases n - i,
        {
            let v = vs[i];
            let a = [
                self.affine_coord(&v, 0),
                self.affine_coord(&v, 1),
                self.affine_coord(&v, 2),
            ];
            vs.set(i, a);
            i = i + 1;
        }
    }

    /// One coordinate of the affine image of `v`, on wide intermediates.
    fn affine_coord(self, v: &Vec3i64, j: usize) -> (r: i64)
        requires
            j < 3,
            mat_bounded(self.mat(), COORD_BOUND as int),
            vec3_bounded(*v, COORD_BOUND as int),
        ensures
            r == affine_entry(self.mat(), *v, j as int),
    {
        proof {
            assert forall|a: i64, b: i64|
                -(COORD_BOUND as int) <= a <= COORD_BOUND && -(COORD_BOUND as int) <= b
                    <= COORD_BOUND implies -(0x1000000000000000int) <= #[trigger] (a as int * b)
                <= 0x1000000000000000int by {
                assert(-(0x1000000000000000int) <= a as int * b <= 0x1000000000000000int)
                    by (nonlinear_arith)
                    requires
                        -(0x40000000int) <= a <= 0x40000000int,
                        -(0x40000000int) <= b <= 0x40000000int;
            }
        }
        let w = self.t[j][0] as i128 * v[0] as i128 + self.t[j][1] as i128 * v[1] as i128
            + self.t[j][2] as i128 * v[2] as i128 + self.t[j][3] as i128;
        w as i64
    }
}

/// The entry of the product of the scaling by `v` with `m`.
pub open spec fn mm_entry_zoom(v: Vec3i64, m: Mat4, i: int, j: int) -> int {
    zoom_entry(v, i, 0) * m[0][j] + zoom_entry(v, i, 1) * m[1][j] + zoom_entry(v, i, 2) * m[2][j]
        + zoom_entry(v, i, 3) * m[3][j]
}

/// The entry of the product of the translation by `v` with `m`.
pub open spec fn mm_entry_translate(v: Vec3i64, m: Mat4, i: int, j: int) -> int {
    translate_entry(v, i, 0) * m[0][j] + translate_entry(v, i, 1) * m[1][j] + translate_entry(
        v,
        i,
        2,
    ) * m[2][j] + translate_entry(v, i, 3) * m[3][j]
}

} // verus!
