//! A wireframe model: a vertex list and a list of edge loops, each loop a
//! cycle of vertex indices, with transformation into a view and
//! enumeration of the segments to draw.

use vstd::prelude::*;

verus! {

use vstd::view::View as _;

use crate::transform::{affine_entry, mat_bounded, vec3_bounded, Transform, COORD_BOUND};
use crate::vector::Vec3i64;

/// The deep view of an edge list: each loop as a sequence of indices.
pub open spec fn edges_view(es: Seq<Vec<usize>>) -> Seq<Seq<usize>> {
    Seq::new(es.len(), |i: int| es[i]@)
}

/// Every index of every edge loop points at a vertex.
pub open spec fn edges_ok(vs: Seq<Vec3i64>, es: Seq<Seq<usize>>) -> bool {
    forall|i: int, j: int|
        0 <= i < es.len() && 0 <= j < es[i].len() ==> #[trigger] es[i][j] < vs.len()
}

/// The segments of one edge loop: each index paired with its cyclic
/// successor, both resolved to vertices.
pub open spec fn edge_lines(vs: Seq<Vec3i64>, e: Seq<usize>) -> Seq<(Vec3i64, Vec3i64)> {
    Seq::new(e.len(), |j: int| (vs[e[j] as int], vs[e[(j + 1) % e.len() as int] as int]))
}

/// The segments of all edge loops, loop by loop.
pub open spec fn lines_spec(vs: Seq<Vec3i64>, es: Seq<Seq<usize>>) -> Seq<(Vec3i64, Vec3i64)>
    decreases es.len(),
{
    if es.len() == 0 {
        seq![]
    } else {
        lines_spec(vs, es.drop_last()) + edge_lines(vs, es.last())
    }
}

/// A wireframe model: vertices and the edge loops connecting them.
pub struct Model {
    vs: Vec<Vec3i64>,
    es: Vec<Vec<usize>>,
}

/// A transformed copy of a model's vertices, with the same edge loops.
pub struct View {
    vs: Vec<Vec3i64>,
    es: Vec<Vec<usize>>,
}

/// A copy of an edge list, built loop by loop.
fn copy_edges(es: &Vec<Vec<usize>>) -> (r: Vec<Vec<usize>>)
    ensures
        edges_view(r@) == edges_view(es@),
{
    let n = es.len();
    let mut out: Vec<Vec<usize>> = Vec::new();
    let mut i: usize = 0;
    while i < n
        invariant
            i <= n,
            n == es@.len(),
            out@.len() == i,
            forall|k: int| 0 <= k < i ==> #[trigger] out@[k]@ == es@[k]@,
        decreases n - i,
    {
        let e = &es[i];
        let m = e.len();
        let mut row: Vec<usize> = Vec::new();
        let mut j: usize = 0;
        while j < m
            invariant
                j <= m,
                m == e@.len(),
                row@ == e@.subrange(0, j as int),
            decreases m - j,
        {
            row.push(e[j]);
            proof {
                assert(row@ =~= e@.subrange(0, j + 1));
            }
            j = j + 1;
        }
        proof {
            assert(row@ =~= e@);
        }
        out.push(row);
        i = i + 1;
    }
    proof {
        assert(edges_view(out@) =~= edges_view(es@));
    }
    out
}

impl Model {
    /// The vertex list.
    pub closed spec fn vs_spec(&self) -> Seq<Vec3i64> {
        self.vs@
    }

    /// The edge loops.
    pub closed spec fn es_spec(&self) -> Seq<Seq<usize>> {
        edges_view(self.es@)
    }

    pub fn new(vs: Vec<Vec3i64>, es: Vec<Vec<usize>>) -> (r: Self)
        ensures
            r.vs_spec() == vs@,
            r.es_spec() == edges_view(es@),
    {
        Model { vs, es }
    }

    pub fn vertices(&self) -> (r: &Vec<Vec3i64>)
        ensures
            r@ == self.vs_spec(),
    {
        &self.vs
    }

    pub fn edges(&self) -> (r: &Vec<Vec<usize>>)
        ensures
            edges_view(r@) == self.es_spec(),
    {
        &self.es
    }

    /// The model seen through a transform: every vertex mapped by it, the
    /// edge loops kept.
    pub fn transform(&self, ts: &Transform) -> (r: View)
        requires
            mat_bounded(ts.mat(), COORD_BOUND as int),
            forall|i: int|
                0 <= i < self.vs_spec().len() ==> vec3_bounded(
                    #[trigger] self.vs_spec()[i],
                    COORD_BOUND as int,
                ),
        ensures
            r.vs_spec().len() == self.vs_spec().len(),
            forall|i: int, j: int|
                0 <= i < self.vs_spec().len() && 0 <= j < 3 ==> #[trigger] r.vs_spec()[i][j]
                    == affine_entry(ts.mat(), self.vs_spec()[i], j),
            r.es_spec() == self.es_spec(),
    {
        let n = self.vs.len();
        let mut vs: Vec<Vec3i64> = Vec::new();
        let mut i: usize = 0;
        while i < n
            invariant
                i <= n,
                n == self.vs@.len(),
                vs@ == self.vs@.subrange(0, i as int),
            decreases n - i,
        {
            vs.push(self.vs[i]);
            proof {
                assert(vs@ =~= self.vs@.subrange(0, i + 1));
            }
            i = i + 1;
        }
        proof {
            assert(vs@ =~= self.vs@);
            assert forall|q: int| 0 <= q < vs@.len() implies vec3_bounded(
                #[trigger] vs@[q],
                COORD_BOUND as int,
            ) by {
                assert(vs@[q] == self.vs_spec()[q]);
            }
        }
        ts.transform(&mut vs);
        View { vs, es: copy_edges(&self.es) }
    }
}

impl View {
    /// The vertex list.
    pub closed spec fn vs_spec(&self) -> Seq<Vec3i64> {
        self.vs@
    }

    /// The edge loops.
    pub closed spec fn es_spec(&self) -> Seq<Seq<usize>> {
        edges_view(self.es@)
    }

    pub fn vertices(&self) -> (r: &Vec<Vec3i64>)
        ensures
            r@ == self.vs_spec(),
    {
        &self.vs
    }

    pub fn edges(&self) -> (r: &Vec<Vec<usize>>)
        ensures
            edges_view(r@) == self.es_spec(),
    {
        &self.es
    }

    /// Every segment of every edge loop, each vertex index paired with its
    /// cyclic successor and both resolved to vertices, loop by loop.
    pub fn lines(&self) -> (r: Vec<[Vec3i64; 2]>)
        requires
            edges_ok(self.vs_spec(), self.es_spec()),
        ensures
            r@.len() == lines_spec(self.vs_spec(), self.es_spec()).len(),
            forall|k: int|
                0 <= k < r@.len() ==> #[trigger] r@[k][0] == lines_spec(
                    self.vs_spec(),
                    self.es_spec(),
                )[k].0 && r@[k][1] == lines_spec(self.vs_spec(), self.es_spec())[k].1,
    {
        let ghost vsv = self.vs_spec();
        let ghost esv = self.es_spec();
        let n = self.es.len();
        let mut out: Vec<[Vec3i64; 2]> = Vec::new();
        let mut i: usize = 0;
        proof {
            assert(esv.take(0) =~= Seq::<Seq<usize>>::empty());
        }
        while i < n
            invariant
                i <= n,
                n == self.es@.len(),
                vsv == self.vs_spec(),
                esv == self.es_spec(),
                esv.len() == n,
                edges_ok(vsv, esv),
                out@.len() == lines_spec(vsv, esv.take(i as int)).len(),
                forall|k: int|
                    0 <= k < out@.len() ==> #[trigger] out@[k][0] == lines_spec(
                        vsv,
                        esv.take(i as int),
                    )[k].0 && out@[k][1] == lines_spec(vsv, esv.take(i as int))[k].1,
            decreases n - i,
        {
            let e = &self.es[i];
            let m = e.len();
            let ghost base = lines_spec(vsv, esv.take(i as int));
            let ghost target = base + edge_lines(vsv, e@);
            let mut j: usize = 0;
            while j < m
                invariant
                    j <= m,
                    m == e@.len(),
                    e@ == self.es@[i as int]@,
                    i < n,
                    n == self.es@.len(),
                    vsv == self.vs_spec(),
                    esv == self.es_spec(),
                    esv.len() == n,
                    edges_ok(vsv, esv),
                    base == lines_spec(vsv, esv.take(i as int)),
                    target == base + edge_lines(vsv, e@),
                    out@.len() == base.len() + j,
                    forall|k: int|
                        0 <= k < out@.len() ==> #[trigger] out@[k][0] == target[k].0 && out@[k][1]
                            == target[k].1,
                decreases m - j,
            {
                proof {
                    assert(esv[i as int] == e@);
                    assert(esv[i as int][j as int] == e@[j as int]);
                }
                let a = e[j];
                let bi = (j + 1) % m;
                proof {
                    assert(e@[j as int] < vsv.len());
                    assert(bi as int == (j as int + 1) % (e@.len() as int));
                    assert(e@[(j as int + 1) % (e@.len() as int)] < vsv.len());
                }
                let b = e[bi];
                out.push([self.vs[a], self.vs[b]]);
                proof {
                    assert(target[base.len() + j] == edge_lines(vsv, e@)[j as int]);
                    assert(edge_lines(vsv, e@)[j as int] == (
                        vsv[e@[j as int] as int],
                        vsv[e@[(j as int + 1) % (e@.len() as int)] as int],
                    ));
                    assert(out@[base.len() + j] == [self.vs@[a as int], self.vs@[b as int]]);
                }
                j = j + 1;
            }
            proof {
                assert(esv.take(i + 1).drop_last() =~= esv.take(i as int));
                assert(esv.take(i + 1).last() == esv[i as int]);
                assert(lines_spec(vsv, esv.take(i + 1)) == target);
            }
            i = i + 1;
        }
        proof {
            assert(esv.take(n as int) =~= esv);
        }
        out
    }
}

} // verus!
