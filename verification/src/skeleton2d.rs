//! The skeleton graph engine.
//!
//! The engine owns one growable arena of boundary points with successor and
//! predecessor maps, plus the triangles of one Delaunay triangulation per
//! appended loop (each stored with its index offset).  Over those it builds
//! lazily memoized caches — triangle adjacency and the exact circumcircle of
//! each triangle — and runs the propagation algorithm: ascend from a seed
//! triangle to a locally maximal inscribed circle, then spread outward,
//! pruning every edge whose boundary arc the dilated circle already covers.
//!
//! The triangulation itself is an external collaborator: callers hand in the
//! flat list of point-index triples it produced, and the engine validates
//! the indices against its own range.

use vstd::pervasive::VecAdditionalExecFns;
use vstd::prelude::*;

use crate::geometry_objects::Circle;
use crate::geometry_objects::Point2;
use crate::geometry_operations;
use crate::SkelError;

verus! {

/// One triangle of a triangulation: three indices into the engine's
/// boundary-point arena.  The vertex order is the one the triangulator
/// produced; it never changes afterwards.
#[derive(Clone, Copy, Debug, PartialEq, Eq, Structural)]
pub struct Triangle {
    pub v0: usize,
    pub v1: usize,
    pub v2: usize,
}

impl Triangle {
    /// The vertex at position `k` of the cyclic vertex order.
    pub open spec fn vert(self, k: int) -> usize {
        if k % 3 == 0 {
            self.v0
        } else if k % 3 == 1 {
            self.v1
        } else {
            self.v2
        }
    }

    /// Whether `v` is one of the three vertices.
    pub open spec fn contains_vert(self, v: usize) -> bool {
        self.v0 == v || self.v1 == v || self.v2 == v
    }

    /// All three vertices index into an arena of `n` points.
    pub open spec fn in_range(self, n: int) -> bool {
        self.v0 < n && self.v1 < n && self.v2 < n
    }
}

/// The up-to-three neighbors of a triangle, one per edge: slot `k` holds
/// the neighbor across the edge opposite vertex `k`, or `None` when that
/// edge lies on the hull.
#[derive(Clone, Copy, Debug, PartialEq, Eq, Structural)]
pub struct NeighborTriple {
    pub n0: Option<usize>,
    pub n1: Option<usize>,
    pub n2: Option<usize>,
}

/// Triangle `b` lies across the edge of `a` opposite vertex position `k`:
/// it shares the two other vertices of `a` and does not touch vertex `k`.
pub open spec fn edge_nbr_cond(a: Triangle, b: Triangle, k: int) -> bool {
    !b.contains_vert(a.vert(k)) && b.contains_vert(a.vert(k + 1)) && b.contains_vert(
        a.vert(k + 2),
    )
}

/// The adjacency slot `k` of triangle `t`, scanning the first `m`
/// triangles: the latest scanned triangle satisfying the shared-edge
/// condition, as in the memoized linear scan.
pub open spec fn nbr_slot_upto(tris: Seq<Triangle>, t: int, k: int, m: int) -> Option<usize>
    decreases m,
{
    if m <= 0 {
        None
    } else if edge_nbr_cond(tris[t], tris[m - 1], k) {
        Some((m - 1) as usize)
    } else {
        nbr_slot_upto(tris, t, k, m - 1)
    }
}

/// The adjacency slot `k` of triangle `t` over the whole triangle list.
pub open spec fn nbr_slot(tris: Seq<Triangle>, t: int, k: int) -> Option<usize> {
    nbr_slot_upto(tris, t, k, tris.len() as int)
}

/// The skeleton engine state: the boundary arena, the triangles, the
/// memoized caches, and the finality flags of the propagation.
pub struct Skeleton {
    pub boundary_points: Vec<Point2>,
    pub next_neighbor: Vec<usize>,
    pub prev_neighbor: Vec<usize>,
    pub delaunay_triangles: Vec<Triangle>,
    pub delaunay_neighbors: Vec<Option<NeighborTriple>>,
    pub skel_circles: Vec<Option<Circle>>,
    pub covered: Vec<Option<Vec<usize>>>,
    pub final_skeleton: Vec<bool>,
}

impl Skeleton {
    /// The number of boundary points.
    pub open spec fn n(self) -> int {
        self.boundary_points@.len() as int
    }

    /// The number of triangles.
    pub open spec fn t_count(self) -> int {
        self.delaunay_triangles@.len() as int
    }

    /// The boundary arena is well formed: the three arrays have one length,
    /// every point is in the supported coordinate range, and the successor
    /// and predecessor maps are mutually inverse — so the points decompose
    /// into disjoint simple cycles.
    pub open spec fn boundary_wf(self) -> bool {
        &&& self.next_neighbor@.len() == self.n()
        &&& self.prev_neighbor@.len() == self.n()
        &&& forall|i: int|
            0 <= i < self.n() ==> (#[trigger] self.boundary_points@[i]).in_bounds()
        &&& forall|i: int|
            0 <= i < self.n() ==> (#[trigger] self.next_neighbor@[i]) < self.n()
        &&& forall|i: int|
            0 <= i < self.n() ==> (#[trigger] self.prev_neighbor@[i]) < self.n()
        &&& forall|i: int|
            0 <= i < self.n() ==> self.prev_neighbor@[#[trigger] self.next_neighbor@[i] as int]
                == i
        &&& forall|i: int|
            0 <= i < self.n() ==> self.next_neighbor@[#[trigger] self.prev_neighbor@[i] as int]
                == i
    }

    /// Every triangle indexes into the point arena, and the caches and the
    /// finality flags have one entry per triangle.
    pub open spec fn triangles_wf(self) -> bool {
        &&& forall|t: int|
            0 <= t < self.t_count() ==> (#[trigger] self.delaunay_triangles@[t]).in_range(
                self.n(),
            )
        &&& self.delaunay_neighbors@.len() == self.t_count()
        &&& self.skel_circles@.len() == self.t_count()
        &&& self.covered@.len() == self.t_count()
        &&& self.final_skeleton@.len() == self.t_count()
    }

    /// The three corner points of triangle `t`.
    pub open spec fn tri_pt(self, t: int, k: int) -> Point2 {
        self.boundary_points@[self.delaunay_triangles@[t].vert(k) as int]
    }

    /// The circumcircle of triangle `t`, as the exact geometric kernel
    /// computes it.
    pub open spec fn circle_of(self, t: int) -> Circle {
        geometry_operations::circle_spec(self.tri_pt(t, 0), self.tri_pt(t, 1), self.tri_pt(t, 2))
    }

    /// Triangle `t` has a circumcircle: its corners are not collinear.
    pub open spec fn tri_nondegenerate(self, t: int) -> bool {
        !geometry_operations::collinear(self.tri_pt(t, 0), self.tri_pt(t, 1), self.tri_pt(t, 2))
    }

    /// Every filled cache entry holds exactly the value the corresponding
    /// from-scratch computation gives: cached adjacency rows equal the scan
    /// result, cached circles equal the exact circumcircle of the (never
    /// changing) corner points.  Repeated reads therefore return identical
    /// values.
    pub open spec fn caches_wf(self) -> bool {
        &&& forall|t: int|
            0 <= t < self.t_count() && (#[trigger] self.delaunay_neighbors@[t]).is_some()
                ==> self.delaunay_neighbors@[t].unwrap() == self.neighbors_of(t)
        &&& forall|t: int|
            0 <= t < self.t_count() && (#[trigger] self.skel_circles@[t]).is_some()
                ==> self.tri_nondegenerate(t) && self.skel_circles@[t].unwrap() == self.circle_of(
                t,
            )
    }

    /// The full engine invariant.
    pub open spec fn wf(self) -> bool {
        self.boundary_wf() && self.triangles_wf() && self.caches_wf()
    }

    /// The adjacency row of triangle `t`, as the linear scan computes it.
    pub open spec fn neighbors_of(self, t: int) -> NeighborTriple {
        NeighborTriple {
            n0: nbr_slot(self.delaunay_triangles@, t, 0),
            n1: nbr_slot(self.delaunay_triangles@, t, 1),
            n2: nbr_slot(self.delaunay_triangles@, t, 2),
        }
    }

    /// The adjacency slot `k` of triangle `t` with boundary edges removed:
    /// when the edge opposite vertex `k` coincides with an original
    /// boundary edge (the successor of its second endpoint is its first),
    /// the neighbor across it is suppressed.
    pub open spec fn non_crossing_slot(self, t: int, k: int) -> Option<usize> {
        match nbr_slot(self.delaunay_triangles@, t, k) {
            Some(j) => {
                let i1 = self.delaunay_triangles@[t].vert(k + 1);
                let i2 = self.delaunay_triangles@[t].vert(k + 2);
                if self.next_neighbor@[i2 as int] == i1 {
                    None
                } else {
                    Some(j)
                }
            },
            None => None,
        }
    }

    /// Everything but the caches and the finality flags is unchanged.
    pub open spec fn same_core(self, other: Skeleton) -> bool {
        &&& other.boundary_points == self.boundary_points
        &&& other.next_neighbor == self.next_neighbor
        &&& other.prev_neighbor == self.prev_neighbor
        &&& other.delaunay_triangles == self.delaunay_triangles
    }

    /// An empty engine: no boundary, no triangles, nothing final.
    pub fn new() -> (r: Skeleton)
        ensures
            r.wf(),
            r.n() == 0,
            r.t_count() == 0,
    {
        Skeleton {
            boundary_points: Vec::new(),
            next_neighbor: Vec::new(),
            prev_neighbor: Vec::new(),
            delaunay_triangles: Vec::new(),
            delaunay_neighbors: Vec::new(),
            skel_circles: Vec::new(),
            covered: Vec::new(),
            final_skeleton: Vec::new(),
        }
    }

    /// An engine holding a copy of the given boundary, with no triangles
    /// yet.  The successor and predecessor maps are validated: they must be
    /// in-range and mutually inverse, else the boundary is inconsistent.
    pub fn init(
        boundary_points: &Vec<Point2>,
        next_neighbor: &Vec<usize>,
        prev_neighbor: &Vec<usize>,
    ) -> (r: Result<Skeleton, SkelError>)
        requires
            forall|i: int|
                0 <= i < boundary_points@.len() ==> (#[trigger] boundary_points@[i]).in_bounds(),
        ensures
            match r {
                Ok(s) => {
                    &&& s.wf()
                    &&& s.boundary_points@ == boundary_points@
                    &&& s.next_neighbor@ == next_neighbor@
                    &&& s.prev_neighbor@ == prev_neighbor@
                    &&& s.t_count() == 0
                    &&& maps_closed(boundary_points@.len() as int, next_neighbor@, prev_neighbor@)
                },
                Err(e) => e == SkelError::IndexInconsistency && !maps_closed(
                    boundary_points@.len() as int,
                    next_neighbor@,
                    prev_neighbor@,
                ),
            },
    {
        let s = Skeleton {
            boundary_points: copy_vec(boundary_points),
            next_neighbor: copy_vec(next_neighbor),
            prev_neighbor: copy_vec(prev_neighbor),
            delaunay_triangles: Vec::new(),
            delaunay_neighbors: Vec::new(),
            skel_circles: Vec::new(),
            covered: Vec::new(),
            final_skeleton: Vec::new(),
        };
        if !check_cycles(&s.boundary_points, &s.next_neighbor, &s.prev_neighbor) {
            return Err(SkelError::IndexInconsistency);
        }
        Ok(s)
    }

    /// Takes over a triangulation of the whole current boundary, handed in
    /// as the triangulator's flat list of point indices.  The list must
    /// hold whole triples of in-range indices, else it is inconsistent with
    /// the boundary.  Callable on an engine without triangles; it sizes the
    /// caches and the finality flags, all unset.
    pub fn compute_delaunay_triangles(&mut self, triangle_indices: &Vec<usize>) -> (r: Result<
        (),
        SkelError,
    >)
        requires
            old(self).wf(),
            old(self).t_count() == 0,
        ensures
            final(self).wf(),
            old(self).same_core(*final(self)) || r.is_ok(),
            final(self).boundary_points == old(self).boundary_points,
            final(self).next_neighbor == old(self).next_neighbor,
            final(self).prev_neighbor == old(self).prev_neighbor,
            match r {
                Ok(()) => {
                    &&& triangle_indices@.len() % 3 == 0
                    &&& final(self).t_count() * 3 == triangle_indices@.len()
                    &&& forall|t: int|
                        0 <= t < final(self).t_count()
                            ==> (#[trigger] final(self).delaunay_triangles@[t]) == (Triangle {
                            v0: triangle_indices@[3 * t],
                            v1: triangle_indices@[3 * t + 1],
                            v2: triangle_indices@[3 * t + 2],
                        })
                    &&& forall|t: int|
                        0 <= t < final(self).t_count() ==> !(
                        #[trigger] final(self).final_skeleton@[t])
                },
                Err(e) => {
                    &&& e == SkelError::IndexInconsistency
                    &&& *final(self) == *old(self)
                    &&& (triangle_indices@.len() % 3 != 0 || exists|i: int|
                        0 <= i < triangle_indices@.len() && (#[trigger] triangle_indices@[i])
                            >= old(self).n())
                },
            },
    {
        if triangle_indices.len() % 3 != 0 {
            return Err(SkelError::IndexInconsistency);
        }
        let n = self.boundary_points.len();
        let mut i: usize = 0;
        while i < triangle_indices.len()
            invariant
                0 <= i <= triangle_indices@.len(),
                forall|m: int| 0 <= m < i ==> (#[trigger] triangle_indices@[m]) < n,
                n == self.boundary_points@.len(),
                *self == *old(self),
                old(self).wf(),
            decreases triangle_indices@.len() - i,
        {
            if triangle_indices[i] >= n {
                return Err(SkelError::IndexInconsistency);
            }
            i = i + 1;
        }
        let count = triangle_indices.len() / 3;
        proof {
            assert(count * 3 == triangle_indices@.len());
        }
        let mut t: usize = 0;
        while t < count
            invariant
                old(self).wf(),
                old(self).t_count() == 0,
                0 <= t <= count,
                count * 3 == triangle_indices@.len(),
                triangle_indices@.len() <= usize::MAX,
                forall|m: int| 0 <= m < triangle_indices@.len() ==> (#[trigger] triangle_indices@[m]) < n,
                n == old(self).boundary_points@.len(),
                self.boundary_points == old(self).boundary_points,
                self.next_neighbor == old(self).next_neighbor,
                self.prev_neighbor == old(self).prev_neighbor,
                self.delaunay_triangles@.len() == t,
                self.delaunay_neighbors@.len() == t,
                self.skel_circles@.len() == t,
                self.covered@.len() == t,
                self.final_skeleton@.len() == t,
                forall|m: int|
                    0 <= m < t ==> (#[trigger] self.delaunay_triangles@[m]) == (Triangle {
                        v0: triangle_indices@[3 * m],
                        v1: triangle_indices@[3 * m + 1],
                        v2: triangle_indices@[3 * m + 2],
                    }),
                forall|m: int|
                    0 <= m < t ==> (#[trigger] self.delaunay_triangles@[m]).in_range(n as int),
                forall|m: int| 0 <= m < t ==> (#[trigger] self.delaunay_neighbors@[m]).is_none(),
                forall|m: int| 0 <= m < t ==> (#[trigger] self.skel_circles@[m]).is_none(),
                forall|m: int| 0 <= m < t ==> !(#[trigger] self.final_skeleton@[m]),
            decreases count - t,
        {
            proof {
                assert(3 * t + 2 < triangle_indices@.len());
            }
            let base = 3 * t;
            let tri = Triangle {
                v0: triangle_indices[base],
                v1: triangle_indices[base + 1],
                v2: triangle_indices[base + 2],
            };
            self.delaunay_triangles.push(tri);
            self.delaunay_neighbors.push(None);
            self.skel_circles.push(None);
            self.covered.push(None);
            self.final_skeleton.push(false);
            t = t + 1;
        }
        Ok(())
    }

    /// Scans the whole triangle list for the neighbors of one triangle:
    /// for each edge, the latest triangle sharing that edge's two vertices
    /// without touching the opposite vertex.
    fn find_neighbors(&self, ind_triangle: usize) -> (r: NeighborTriple)
        requires
            self.wf(),
            ind_triangle < self.t_count(),
        ensures
            r == self.neighbors_of(ind_triangle as int),
    {
        let a = self.delaunay_triangles[ind_triangle];
        let i1 = a.v0;
        let i2 = a.v1;
        let i3 = a.v2;
        let mut n0: Option<usize> = None;
        let mut n1: Option<usize> = None;
        let mut n2: Option<usize> = None;
        let mut ind: usize = 0;
        let t = ind_triangle;
        while ind < self.delaunay_triangles.len()
            invariant
                self.wf(),
                t < self.t_count(),
                0 <= ind <= self.t_count(),
                a == self.delaunay_triangles@[t as int],
                i1 == a.v0 && i2 == a.v1 && i3 == a.v2,
                n0 == nbr_slot_upto(self.delaunay_triangles@, t as int, 0, ind as int),
                n1 == nbr_slot_upto(self.delaunay_triangles@, t as int, 1, ind as int),
                n2 == nbr_slot_upto(self.delaunay_triangles@, t as int, 2, ind as int),
            decreases self.t_count() - ind,
        {
            let v = self.delaunay_triangles[ind];
            let i1_in = v.v0 == i1 || v.v1 == i1 || v.v2 == i1;
            let i2_in = v.v0 == i2 || v.v1 == i2 || v.v2 == i2;
            let i3_in = v.v0 == i3 || v.v1 == i3 || v.v2 == i3;
            if i1_in && i2_in && !i3_in {
                n2 = Some(ind);
            } else if i1_in && !i2_in && i3_in {
                n1 = Some(ind);
            } else if !i1_in && i2_in && i3_in {
                n0 = Some(ind);
            }
            ind = ind + 1;
        }
        NeighborTriple { n0, n1, n2 }
    }

    /// The memoized neighbors of a triangle: computed by one scan on the
    /// first request, cached permanently afterwards.
    pub fn get_neighbors(&mut self, ind_triangle: usize) -> (r: NeighborTriple)
        requires
            old(self).wf(),
            ind_triangle < old(self).t_count(),
        ensures
            final(self).wf(),
            old(self).same_core(*final(self)),
            r == old(self).neighbors_of(ind_triangle as int),
            final(self).skel_circles == old(self).skel_circles,
            final(self).covered == old(self).covered,
            final(self).final_skeleton == old(self).final_skeleton,
            final(self).delaunay_neighbors@.len() == old(self).delaunay_neighbors@.len(),
            final(self).delaunay_neighbors@[ind_triangle as int] == Some(r),
            forall|j: int|
                0 <= j < old(self).t_count() && j != ind_triangle
                    ==> final(self).delaunay_neighbors@[j] == old(self).delaunay_neighbors@[j],
    {
        match self.delaunay_neighbors[ind_triangle] {
            Some(val) => val,
            None => {
                let nei = self.find_neighbors(ind_triangle);
                self.delaunay_neighbors.set(ind_triangle, Some(nei));
                nei
            },
        }
    }

    /// The neighbors of a triangle with boundary edges suppressed: an edge
    /// that coincides with an original boundary edge never connects two
    /// skeleton nodes, whatever the triangulation says.
    pub fn get_non_crossing_neighbors(&mut self, ind_triangle: usize) -> (r: NeighborTriple)
        requires
            old(self).wf(),
            ind_triangle < old(self).t_count(),
        ensures
            final(self).wf(),
            old(self).same_core(*final(self)),
            r.n0 == old(self).non_crossing_slot(ind_triangle as int, 0),
            r.n1 == old(self).non_crossing_slot(ind_triangle as int, 1),
            r.n2 == old(self).non_crossing_slot(ind_triangle as int, 2),
            final(self).skel_circles == old(self).skel_circles,
            final(self).covered == old(self).covered,
            final(self).final_skeleton == old(self).final_skeleton,
            final(self).delaunay_neighbors@.len() == old(self).delaunay_neighbors@.len(),
            final(self).delaunay_neighbors@[ind_triangle as int] == Some(
                old(self).neighbors_of(ind_triangle as int),
            ),
            forall|j: int|
                0 <= j < old(self).t_count() && j != ind_triangle
                    ==> final(self).delaunay_neighbors@[j] == old(self).delaunay_neighbors@[j],
    {
        let all_nei = self.get_neighbors(ind_triangle);
        let ind_tri = self.delaunay_triangles[ind_triangle];
        let n0 = match all_nei.n0 {
            Some(val) => {
                if self.next_neighbor[ind_tri.v2] == ind_tri.v1 {
                    None
                } else {
                    Some(val)
                }
            },
            None => None,
        };
        let n1 = match all_nei.n1 {
            Some(val) => {
                if self.next_neighbor[ind_tri.v0] == ind_tri.v2 {
                    None
                } else {
                    Some(val)
                }
            },
            None => None,
        };
        let n2 = match all_nei.n2 {
            Some(val) => {
                if self.next_neighbor[ind_tri.v1] == ind_tri.v0 {
                    None
                } else {
                    Some(val)
                }
            },
            None => None,
        };
        NeighborTriple { n0, n1, n2 }
    }

    /// The memoized circumcircle of a triangle: fitted exactly on the
    /// first request, cached permanently afterwards, so repeated requests
    /// return the identical value.  Fails exactly when the corners are
    /// collinear.
    pub fn get_circle(&mut self, ind_triangle: usize) -> (r: Result<Circle, SkelError>)
        requires
            old(self).wf(),
            ind_triangle < old(self).t_count(),
        ensures
            final(self).wf(),
            old(self).same_core(*final(self)),
            final(self).delaunay_neighbors == old(self).delaunay_neighbors,
            final(self).covered == old(self).covered,
            final(self).final_skeleton == old(self).final_skeleton,
            match r {
                Ok(c) => {
                    &&& old(self).tri_nondegenerate(ind_triangle as int)
                    &&& c == old(self).circle_of(ind_triangle as int)
                    &&& c.wf()
                    &&& c.bounded()
                    &&& final(self).skel_circles@[ind_triangle as int] == Some(c)
                    &&& final(self).skel_circles@.len() == old(self).skel_circles@.len()
                    &&& forall|j: int|
                        0 <= j < old(self).t_count() && j != ind_triangle
                            ==> final(self).skel_circles@[j] == old(self).skel_circles@[j]
                },
                Err(e) => {
                    &&& e == SkelError::GeometryDegenerate
                    &&& !old(self).tri_nondegenerate(ind_triangle as int)
                    &&& *final(self) == *old(self)
                },
            },
    {
        let t = ind_triangle;
        match self.skel_circles[t] {
            Some(val) => {
                proof {
                    geometry_operations::lemma_circle_spec_equidistant(
                        self.tri_pt(t as int, 0),
                        self.tri_pt(t as int, 1),
                        self.tri_pt(t as int, 2),
                    );
                }
                Ok(val)
            },
            None => {
                let tri = self.delaunay_triangles[t];
                let pt1 = self.boundary_points[tri.v0];
                let pt2 = self.boundary_points[tri.v1];
                let pt3 = self.boundary_points[tri.v2];
                match Circle::from(&pt1, &pt2, &pt3) {
                    Ok(res) => {
                        self.skel_circles.set(t, Some(res));
                        Ok(res)
                    },
                    Err(e) => Err(e),
                }
            },
        }
    }
}

/// The least x coordinate among the points with index in `[start, m)`.
pub open spec fn corner_x(pts: Seq<Point2>, start: int, m: int) -> int
    decreases m - start,
{
    if m <= start + 1 {
        pts[start].x as int
    } else {
        let prev = corner_x(pts, start, m - 1);
        if pts[m - 1].x < prev {
            pts[m - 1].x as int
        } else {
            prev
        }
    }
}

/// The least y coordinate among the points with index in `[start, m)`.
pub open spec fn corner_y(pts: Seq<Point2>, start: int, m: int) -> int
    decreases m - start,
{
    if m <= start + 1 {
        pts[start].y as int
    } else {
        let prev = corner_y(pts, start, m - 1);
        if pts[m - 1].y < prev {
            pts[m - 1].y as int
        } else {
            prev
        }
    }
}

/// The squared distance from a point to the corner `(cx, cy)`.
pub open spec fn dist2_to(p: Point2, cx: int, cy: int) -> int {
    crate::geometry_objects::sq(p.x - cx) + crate::geometry_objects::sq(p.y - cy)
}

/// The index in `[start, m)` of the point closest to the corner, earliest
/// index winning ties (later points replace only on a strictly smaller
/// distance).
pub open spec fn closest_upto(pts: Seq<Point2>, start: int, cx: int, cy: int, m: int) -> int
    decreases m - start,
{
    if m <= start + 1 {
        start
    } else {
        let prev = closest_upto(pts, start, cx, cy, m - 1);
        if dist2_to(pts[m - 1], cx, cy) < dist2_to(pts[prev], cx, cy) {
            m - 1
        } else {
            prev
        }
    }
}

/// The triangle holds the directed pair `(nxt, clo)` consecutively in its
/// cyclic vertex order.
pub open spec fn has_seed_pair(tri: Triangle, clo: usize, nxt: usize) -> bool {
    (tri.v1 == clo && tri.v0 == nxt) || (tri.v2 == clo && tri.v1 == nxt) || (tri.v0 == clo
        && tri.v2 == nxt)
}

/// The first triangle among the first `m` that holds the seed pair.
pub open spec fn first_seed_tri(tris: Seq<Triangle>, clo: usize, nxt: usize, m: int) -> Option<
    int,
>
    decreases m,
{
    if m <= 0 {
        None
    } else {
        match first_seed_tri(tris, clo, nxt, m - 1) {
            Some(j) => Some(j),
            None => if has_seed_pair(tris[m - 1], clo, nxt) {
                Some(m - 1)
            } else {
                None
            },
        }
    }
}

/// Once the first-match scan has found a triangle, scanning further does
/// not change the answer.
proof fn lemma_first_seed_mono(tris: Seq<Triangle>, clo: usize, nxt: usize, i: int, m: int)
    requires
        0 <= i <= m,
        first_seed_tri(tris, clo, nxt, i).is_some(),
    ensures
        first_seed_tri(tris, clo, nxt, m) == first_seed_tri(tris, clo, nxt, i),
    decreases m - i,
{
    if m > i {
        lemma_first_seed_mono(tris, clo, nxt, i, m - 1);
    }
}

/// An adjacency slot always names a triangle earlier than the scan bound.
proof fn lemma_nbr_slot_in_range(tris: Seq<Triangle>, t: int, k: int, m: int)
    ensures
        nbr_slot_upto(tris, t, k, m).is_some() ==> 0 <= nbr_slot_upto(tris, t, k, m).unwrap() < m,
    decreases m,
{
    if m > 0 {
        lemma_nbr_slot_in_range(tris, t, k, m - 1);
    }
}

/// Pushing onto a sequence keeps every element it contained, and makes it
/// contain the pushed element.
proof fn lemma_push_contains<T>(s: Seq<T>, x: T)
    ensures
        forall|y: T| s.contains(y) ==> #[trigger] s.push(x).contains(y),
        s.push(x).contains(x),
{
    assert(s.push(x)[s.len() as int] == x);
    assert forall|y: T| s.contains(y) implies #[trigger] s.push(x).contains(y) by {
        let idx = choose|idx: int| 0 <= idx < s.len() && s[idx] == y;
        assert(s.push(x)[idx] == y);
    }
}

/// The seed choice of a whole search range, as one spec value: the first
/// triangle holding the pair (closest point to the extremal corner, its
/// successor), or `None` when no triangle does.
pub open spec fn seed_of(s: Skeleton, start: int) -> Option<int> {
    let cx = corner_x(s.boundary_points@, start, s.n());
    let cy = corner_y(s.boundary_points@, start, s.n());
    let clo = closest_upto(s.boundary_points@, start, cx, cy, s.n());
    let nxt = s.next_neighbor@[clo];
    first_seed_tri(s.delaunay_triangles@, clo as usize, nxt, s.t_count())
}

impl Skeleton {
    /// The seed triangle for the boundary points with index at least
    /// `start`: find the componentwise minimum corner of those points, the
    /// point closest to it, and the first triangle holding that point and
    /// its successor as a consecutive pair.
    fn seed_search(&self, start: usize) -> (r: Result<usize, SkelError>)
        requires
            self.wf(),
            start <= self.n(),
        ensures
            match r {
                Ok(t) => start < self.n() && t < self.t_count() && seed_of(*self, start as int)
                    == Some(t as int),
                Err(e) => {
                    ||| (e == SkelError::EmptyInput && start == self.n())
                    ||| (e == SkelError::SeedNotFound && start < self.n() && seed_of(*self, start as int).is_none())
                },
            },
    {
        let n = self.boundary_points.len();
        if start >= n {
            return Err(SkelError::EmptyInput);
        }
        let pts = &self.boundary_points;
        let mut cx: i64 = pts[start].x;
        let mut cy: i64 = pts[start].y;
        let mut i: usize = start + 1;
        while i < n
            invariant
                self.wf(),
                start < n <= self.n(),
                n == self.n(),
                start + 1 <= i <= n,
                pts == &self.boundary_points,
                -crate::COORD_LIMIT <= cx <= crate::COORD_LIMIT,
                -crate::COORD_LIMIT <= cy <= crate::COORD_LIMIT,
                cx as int == corner_x(self.boundary_points@, start as int, i as int),
                cy as int == corner_y(self.boundary_points@, start as int, i as int),
            decreases n - i,
        {
            if pts[i].x < cx {
                cx = pts[i].x;
            }
            if pts[i].y < cy {
                cy = pts[i].y;
            }
            i = i + 1;
        }
        let mut ind_clo: usize = start;
        let mut best: i128 = point_corner_dist2(&pts[start], cx, cy);
        let mut i: usize = start + 1;
        while i < n
            invariant
                self.wf(),
                start < n <= self.n(),
                n == self.n(),
                start + 1 <= i <= n,
                start <= ind_clo < n,
                pts == &self.boundary_points,
                -crate::COORD_LIMIT <= cx <= crate::COORD_LIMIT,
                -crate::COORD_LIMIT <= cy <= crate::COORD_LIMIT,
                ind_clo as int == closest_upto(
                    self.boundary_points@,
                    start as int,
                    cx as int,
                    cy as int,
                    i as int,
                ),
                best == dist2_to(self.boundary_points@[ind_clo as int], cx as int, cy as int),
            decreases n - i,
        {
            let d = point_corner_dist2(&pts[i], cx, cy);
            if d < best {
                ind_clo = i;
                best = d;
            }
            i = i + 1;
        }
        let ind_next = self.next_neighbor[ind_clo];
        let mut t: usize = 0;
        let tris = &self.delaunay_triangles;
        while t < tris.len()
            invariant
                self.wf(),
                tris == &self.delaunay_triangles,
                0 <= t <= self.t_count(),
                start < n == self.n(),
                start <= ind_clo < self.n(),
                cx as int == corner_x(self.boundary_points@, start as int, self.n()),
                cy as int == corner_y(self.boundary_points@, start as int, self.n()),
                ind_clo as int == closest_upto(
                    self.boundary_points@,
                    start as int,
                    cx as int,
                    cy as int,
                    self.n(),
                ),
                ind_next == self.next_neighbor@[ind_clo as int],
                first_seed_tri(self.delaunay_triangles@, ind_clo, ind_next, t as int).is_none(),
            decreases self.t_count() - t,
        {
            let tri = tris[t];
            let config1 = tri.v1 == ind_clo && tri.v0 == ind_next;
            let config2 = tri.v2 == ind_clo && tri.v1 == ind_next;
            let config3 = tri.v0 == ind_clo && tri.v2 == ind_next;
            if config1 || config2 || config3 {
                proof {
                    lemma_first_seed_mono(
                        self.delaunay_triangles@,
                        ind_clo,
                        ind_next,
                        t + 1,
                        self.t_count(),
                    );
                }
                return Ok(t);
            }
            t = t + 1;
        }
        Err(SkelError::SeedNotFound)
    }
}

impl Skeleton {
    /// Emits every edge of the final skeleton once: for each final
    /// triangle, each non-crossing neighbor with a larger index that is
    /// also final.
    pub fn get_edges_ind(&mut self) -> (r: Vec<(usize, usize)>)
        requires
            old(self).wf(),
        ensures
            final(self).wf(),
            old(self).same_core(*final(self)),
            final(self).skel_circles == old(self).skel_circles,
            final(self).covered == old(self).covered,
            final(self).final_skeleton == old(self).final_skeleton,
            final(self).delaunay_neighbors@.len() == old(self).delaunay_neighbors@.len(),
            forall|j: int|
                0 <= j < old(self).t_count() && (#[trigger] old(
                    self,
                ).delaunay_neighbors@[j]).is_some() ==> final(self).delaunay_neighbors@[j] == old(
                    self,
                ).delaunay_neighbors@[j],
            forall|m: int|
                0 <= m < r@.len() ==> {
                    let a = (#[trigger] r@[m]).0;
                    let b = r@[m].1;
                    &&& a < b < old(self).t_count()
                    &&& old(self).final_skeleton@[a as int]
                    &&& old(self).final_skeleton@[b as int]
                    &&& (old(self).non_crossing_slot(a as int, 0) == Some(b) || old(
                        self,
                    ).non_crossing_slot(a as int, 1) == Some(b) || old(self).non_crossing_slot(
                        a as int,
                        2,
                    ) == Some(b))
                },
            forall|i: int, k: int|
                0 <= i < old(self).t_count() && 0 <= k < 3 && old(self).final_skeleton@[i]
                    && match #[trigger] old(self).non_crossing_slot(i, k) {
                    Some(j) => j > i && old(self).final_skeleton@[j as int],
                    None => false,
                } ==> r@.contains(
                    (i as usize, old(self).non_crossing_slot(i, k).unwrap()),
                ),
            forall|m1: int, m2: int|
                0 <= m1 < m2 < r@.len() ==> (#[trigger] r@[m1]).0 <= (#[trigger] r@[m2]).0
                    && r@[m1] != r@[m2],
    {
        let mut edges_ind: Vec<(usize, usize)> = Vec::new();
        let mut i: usize = 0;
        let t_total = self.final_skeleton.len();
        while i < t_total
            invariant
                self.wf(),
                old(self).wf(),
                old(self).same_core(*self),
                self.skel_circles == old(self).skel_circles,
                self.covered == old(self).covered,
                self.final_skeleton == old(self).final_skeleton,
                self.delaunay_neighbors@.len() == old(self).delaunay_neighbors@.len(),
                forall|j: int|
                    0 <= j < old(self).t_count() && (#[trigger] old(
                        self,
                    ).delaunay_neighbors@[j]).is_some() ==> self.delaunay_neighbors@[j] == old(
                        self,
                    ).delaunay_neighbors@[j],
                t_total == self.t_count(),
                0 <= i <= t_total,
                forall|m: int|
                    0 <= m < edges_ind@.len() ==> {
                        let a = (#[trigger] edges_ind@[m]).0;
                        let b = edges_ind@[m].1;
                        &&& a < b < old(self).t_count()
                        &&& old(self).final_skeleton@[a as int]
                        &&& old(self).final_skeleton@[b as int]
                        &&& (old(self).non_crossing_slot(a as int, 0) == Some(b) || old(
                            self,
                        ).non_crossing_slot(a as int, 1) == Some(b) || old(self).non_crossing_slot(
                            a as int,
                            2,
                        ) == Some(b))
                    },
                forall|i0: int, k: int|
                    0 <= i0 < i && 0 <= k < 3 && old(self).final_skeleton@[i0]
                        && match #[trigger] old(self).non_crossing_slot(i0, k) {
                        Some(j) => j > i0 && old(self).final_skeleton@[j as int],
                        None => false,
                    } ==> edges_ind@.contains(
                        (i0 as usize, old(self).non_crossing_slot(i0, k).unwrap()),
                    ),
                forall|m: int| 0 <= m < edges_ind@.len() ==> (#[trigger] edges_ind@[m]).0 < i,
                forall|m1: int, m2: int|
                    0 <= m1 < m2 < edges_ind@.len() ==> (#[trigger] edges_ind@[m1]).0 <= (
                    #[trigger] edges_ind@[m2]).0 && edges_ind@[m1] != edges_ind@[m2],
            decreases t_total - i,
        {
            if self.final_skeleton[i] {
                let nei = self.get_non_crossing_neighbors(i);
                proof {
                    lemma_nbr_slot_in_range(self.delaunay_triangles@, i as int, 0, self.t_count());
                    lemma_nbr_slot_in_range(self.delaunay_triangles@, i as int, 1, self.t_count());
                    lemma_nbr_slot_in_range(self.delaunay_triangles@, i as int, 2, self.t_count());
                }
                if let Some(v) = nei.n0 {
                    if v > i && self.final_skeleton[v] {
                        proof {
                            lemma_push_contains(edges_ind@, (i, v));
                        }
                        edges_ind.push((i, v));
                    }
                }
                if let Some(v) = nei.n1 {
                    if v > i && self.final_skeleton[v] && nei.n0 != Some(v) {
                        proof {
                            lemma_push_contains(edges_ind@, (i, v));
                        }
                        edges_ind.push((i, v));
                    }
                }
                if let Some(v) = nei.n2 {
                    if v > i && self.final_skeleton[v] && nei.n0 != Some(v) && nei.n1 != Some(v) {
                        proof {
                            lemma_push_contains(edges_ind@, (i, v));
                        }
                        edges_ind.push((i, v));
                    }
                }
            }
            i = i + 1;
        }
        edges_ind
    }
}


/// Triangle `b` is a non-covered neighbor of `a` at this tolerance: one
/// of `a`'s three slots, after coverage pruning, names it.
pub open spec fn step_to(s: Skeleton, eps: crate::Epsilon, a: int, b: usize) -> bool {
    exists|k: int| 0 <= k < 3 && #[trigger] non_covered_slot(s, a, k, eps) == Some(b)
}

/// `to` is reachable from `from` in at most `n` steps of the non-covered
/// relation, with every triangle along the way — both ends included —
/// unfinal in `flags`.  This is the set one propagation run explores when
/// `flags` are the finality flags it starts from.
pub open spec fn fresh_reach(
    s: Skeleton,
    eps: crate::Epsilon,
    flags: Seq<bool>,
    from: int,
    to: int,
    n: nat,
) -> bool
    decreases n,
{
    ||| (from == to && 0 <= from < s.t_count() && !flags[from])
    ||| (n > 0 && 0 <= from < s.t_count() && !flags[from] && exists|b: usize|
        #[trigger] step_to(s, eps, from, b) && fresh_reach(s, eps, flags, b as int, to, (n - 1) as nat))
}

/// Reachability in any number of steps.
pub open spec fn fresh_reachable(
    s: Skeleton,
    eps: crate::Epsilon,
    flags: Seq<bool>,
    from: int,
    to: int,
) -> bool {
    exists|n: nat| fresh_reach(s, eps, flags, from, to, n)
}

/// The non-covered relation reads only the core (points, successor maps,
/// triangles), so cache fills do not change it.
proof fn lemma_core_step_stable(a: Skeleton, b: Skeleton, eps: crate::Epsilon)
    requires
        a.same_core(b),
    ensures
        forall|t: int, k: int| #[trigger] non_covered_slot(b, t, k, eps) == non_covered_slot(
            a,
            t,
            k,
            eps,
        ),
        forall|t: int, v: usize| #[trigger] step_to(b, eps, t, v) == step_to(a, eps, t, v),
{
    assert forall|t: int, k: int| #[trigger] non_covered_slot(b, t, k, eps) == non_covered_slot(
        a,
        t,
        k,
        eps,
    ) by {}
    assert forall|t: int, v: usize| #[trigger] step_to(b, eps, t, v) == step_to(a, eps, t, v) by {
        if step_to(b, eps, t, v) {
            let k = choose|k: int| 0 <= k < 3 && #[trigger] non_covered_slot(b, t, k, eps) == Some(
                v,
            );
            assert(non_covered_slot(a, t, k, eps) == Some(v));
        }
        if step_to(a, eps, t, v) {
            let k = choose|k: int| 0 <= k < 3 && #[trigger] non_covered_slot(a, t, k, eps) == Some(
                v,
            );
            assert(non_covered_slot(b, t, k, eps) == Some(v));
        }
    }
}

/// A reachable triangle stays reachable one non-covered step further,
/// provided the new endpoint is also unfinal.
proof fn lemma_fresh_reach_extend(
    s: Skeleton,
    eps: crate::Epsilon,
    flags: Seq<bool>,
    from: int,
    a: int,
    b: usize,
    n: nat,
)
    requires
        fresh_reach(s, eps, flags, from, a, n),
        step_to(s, eps, a, b),
        0 <= b < s.t_count(),
        !flags[b as int],
    ensures
        fresh_reach(s, eps, flags, from, b as int, (n + 1) as nat),
    decreases n,
{
    if from == a && 0 <= from < s.t_count() && !flags[from] {
        assert(fresh_reach(s, eps, flags, b as int, b as int, n));
    } else {
        let mid = choose|mid: usize|
            #[trigger] step_to(s, eps, from, mid) && fresh_reach(
                s,
                eps,
                flags,
                mid as int,
                a,
                (n - 1) as nat,
            );
        lemma_fresh_reach_extend(s, eps, flags, mid as int, a, b, (n - 1) as nat);
        assert(step_to(s, eps, from, mid) && fresh_reach(s, eps, flags, mid as int, b as int, n));
    }
}

/// Under a closed final set — every non-covered neighbor of a newly
/// final triangle is final — everything reachable from a final triangle
/// through unfinal-in-`flags` triangles is final.
proof fn lemma_fresh_reach_final(
    s: Skeleton,
    eps: crate::Epsilon,
    flags: Seq<bool>,
    fin: Seq<bool>,
    from: int,
    to: int,
    n: nat,
)
    requires
        flags.len() == s.t_count(),
        fin.len() == s.t_count(),
        forall|t: int| 0 <= t < s.t_count() && flags[t] ==> fin[t],
        forall|a: int, b: usize|
            0 <= a < s.t_count() && fin[a] && !flags[a] && #[trigger] step_to(s, eps, a, b) && 0
                <= b < s.t_count() ==> fin[b as int],
        0 <= from < s.t_count(),
        fin[from],
        fresh_reach(s, eps, flags, from, to, n),
    ensures
        0 <= to < s.t_count() && fin[to],
    decreases n,
{
    if from == to {
    } else {
        let mid = choose|mid: usize|
            #[trigger] step_to(s, eps, from, mid) && fresh_reach(
                s,
                eps,
                flags,
                mid as int,
                to,
                (n - 1) as nat,
            );
        assert(0 <= mid < s.t_count());
        assert(fin[mid as int]);
        lemma_fresh_reach_final(s, eps, flags, fin, mid as int, to, (n - 1) as nat);
    }
}

/// The set of triangles not yet final.
pub open spec fn unfinal_set(flags: Seq<bool>) -> Set<int> {
    Set::new(|t: int| 0 <= t < flags.len() && !flags[t])
}

/// The set of non-final triangles is finite, being a subset of the index
/// range.
proof fn lemma_unfinal_finite(flags: Seq<bool>)
    ensures
        unfinal_set(flags).finite(),
        unfinal_set(flags).len() <= flags.len(),
{
    vstd::set_lib::lemma_int_range(0, flags.len() as int);
    vstd::set_lib::lemma_len_subset(
        unfinal_set(flags),
        vstd::set_lib::set_int_range(0, flags.len() as int),
    );
}

/// The iterative worklist propagation.  Pops a triangle; if it is already
/// final the pop is a no-op, else its non-covered neighbors are pushed and
/// the triangle becomes final.  Every triangle is processed at most once,
/// and a finality flag, once set, never reverts — within this call and
/// across calls.  On success the final set is characterized exactly: a
/// triangle is final afterwards iff it was final before or is reachable
/// from the seed through the non-covered relation over triangles that
/// were not yet final.  A degenerate circumcircle along the way aborts
/// the call — the failing triangle is the seed or a non-covered neighbor
/// of a triangle finalized in this call — leaving the flags in a
/// consistent but partial state that callers must discard.
#[verifier::rlimit(60)]
pub fn propagate_from(skeleton: &mut Skeleton, ind_triangle: usize, epsilon: crate::Epsilon) -> (r:
    Result<(), SkelError>)
    requires
        old(skeleton).wf(),
        ind_triangle < old(skeleton).t_count(),
        epsilon.wf(),
        old(skeleton).n() < usize::MAX,
    ensures
        final(skeleton).wf(),
        old(skeleton).same_core(*final(skeleton)),
        final(skeleton).final_skeleton@.len() == old(skeleton).final_skeleton@.len(),
        forall|t: int|
            0 <= t < old(skeleton).t_count() && old(skeleton).final_skeleton@[t]
                ==> final(skeleton).final_skeleton@[t],
        final(skeleton).delaunay_neighbors@.len() == old(skeleton).delaunay_neighbors@.len(),
        final(skeleton).skel_circles@.len() == old(skeleton).skel_circles@.len(),
        forall|j: int|
            0 <= j < old(skeleton).t_count() && (#[trigger] old(
                skeleton,
            ).delaunay_neighbors@[j]).is_some() ==> final(skeleton).delaunay_neighbors@[j] == old(
                skeleton,
            ).delaunay_neighbors@[j],
        forall|j: int|
            0 <= j < old(skeleton).t_count() && (#[trigger] old(
                skeleton,
            ).skel_circles@[j]).is_some() ==> final(skeleton).skel_circles@[j] == old(
                skeleton,
            ).skel_circles@[j],
        match r {
            Ok(()) => {
                &&& final(skeleton).final_skeleton@[ind_triangle as int]
                &&& forall|t: int|
                    0 <= t < old(skeleton).t_count()
                        ==> ((#[trigger] final(skeleton).final_skeleton@[t]) <==> (old(
                        skeleton,
                    ).final_skeleton@[t] || fresh_reachable(
                        *old(skeleton),
                        epsilon,
                        old(skeleton).final_skeleton@,
                        ind_triangle as int,
                        t,
                    )))
                &&& forall|t: int|
                    0 <= t < old(skeleton).t_count()
                        && (#[trigger] final(skeleton).final_skeleton@[t])
                        && !old(skeleton).final_skeleton@[t]
                        ==> old(skeleton).tri_nondegenerate(t)
            },
            Err(e) => e == SkelError::GeometryDegenerate && exists|t: int|
                0 <= t < old(skeleton).t_count() && !(#[trigger] old(skeleton).tri_nondegenerate(
                    t,
                )) && (t == ind_triangle || exists|a: int|
                    0 <= a < old(skeleton).t_count() && final(skeleton).final_skeleton@[a] && !old(
                        skeleton,
                    ).final_skeleton@[a] && step_to(*old(skeleton), epsilon, a, t as usize)),
        },
{
    let ghost s0 = *old(skeleton);
    let ghost flags0 = old(skeleton).final_skeleton@;
    let ghost seed = ind_triangle as int;
    let mut to_propagate: Vec<usize> = Vec::new();
    to_propagate.push(ind_triangle);
    proof {
        assert(to_propagate@[0] == ind_triangle);
    }
    while to_propagate.len() > 0
        invariant
            skeleton.wf(),
            s0 == *old(skeleton),
            flags0 == s0.final_skeleton@,
            seed == ind_triangle as int,
            s0.same_core(*skeleton),
            ind_triangle < skeleton.t_count(),
            epsilon.wf(),
            skeleton.n() < usize::MAX,
            s0.wf(),
            skeleton.final_skeleton@.len() == flags0.len(),
            forall|t: int|
                0 <= t < s0.t_count() && flags0[t] ==> skeleton.final_skeleton@[t],
            forall|m: int|
                0 <= m < to_propagate@.len() ==> (#[trigger] to_propagate@[m])
                    < skeleton.t_count(),
            skeleton.final_skeleton@[seed] || to_propagate@.contains(ind_triangle),
            forall|m: int|
                0 <= m < to_propagate@.len() ==> (#[trigger] to_propagate@[m]) == ind_triangle
                    || exists|a: int|
                    0 <= a < s0.t_count() && skeleton.final_skeleton@[a] && !flags0[a]
                        && #[trigger] step_to(s0, epsilon, a, to_propagate@[m]),
            forall|t: int|
                0 <= t < s0.t_count() && (#[trigger] skeleton.final_skeleton@[t]) ==> (flags0[t]
                    || fresh_reachable(s0, epsilon, flags0, seed, t)),
            forall|t: int|
                0 <= t < s0.t_count() && (#[trigger] skeleton.final_skeleton@[t]) && !flags0[t]
                    ==> s0.tri_nondegenerate(t),
            skeleton.delaunay_neighbors@.len() == s0.delaunay_neighbors@.len(),
            skeleton.skel_circles@.len() == s0.skel_circles@.len(),
            forall|j: int|
                0 <= j < s0.t_count() && (#[trigger] s0.delaunay_neighbors@[j]).is_some()
                    ==> skeleton.delaunay_neighbors@[j] == s0.delaunay_neighbors@[j],
            forall|j: int|
                0 <= j < s0.t_count() && (#[trigger] s0.skel_circles@[j]).is_some()
                    ==> skeleton.skel_circles@[j] == s0.skel_circles@[j],
            forall|a: int, b: usize|
                0 <= a < s0.t_count() && skeleton.final_skeleton@[a] && !flags0[a]
                    && #[trigger] step_to(s0, epsilon, a, b) && 0 <= b < s0.t_count()
                    ==> skeleton.final_skeleton@[b as int] || to_propagate@.contains(b),
        decreases unfinal_set(skeleton.final_skeleton@).len(), to_propagate@.len(),
    {
        let ghost flags_before = skeleton.final_skeleton@;
        let ghost stack_before = to_propagate@;
        let ind = to_propagate.pop().unwrap();
        proof {
            lemma_unfinal_finite(flags_before);
            assert forall|b: usize|
                stack_before.contains(b) && b != ind implies to_propagate@.contains(b) by {
                let m = choose|m: int| 0 <= m < stack_before.len() && stack_before[m] == b;
                assert(m < stack_before.len() - 1);
                assert(to_propagate@[m] == b);
            }
        }
        if !skeleton.final_skeleton[ind] {
            proof {
                assert(!flags0[ind as int]);
                if ind == ind_triangle {
                    assert(fresh_reach(s0, epsilon, flags0, seed, ind as int, 0nat));
                } else {
                    let a = choose|a: int|
                        0 <= a < s0.t_count() && skeleton.final_skeleton@[a] && !flags0[a]
                            && #[trigger] step_to(s0, epsilon, a, ind);
                    assert(fresh_reachable(s0, epsilon, flags0, seed, a));
                    let n = choose|n: nat| fresh_reach(s0, epsilon, flags0, seed, a, n);
                    lemma_fresh_reach_extend(s0, epsilon, flags0, seed, a, ind, n);
                }
                assert(fresh_reachable(s0, epsilon, flags0, seed, ind as int));
            }
            let nei = match skeleton.get_non_covered_neighbors(ind, epsilon) {
                Ok(x) => x,
                Err(e) => {
                    proof {
                        assert(!old(skeleton).tri_nondegenerate(ind as int));
                        if ind != ind_triangle {
                            let a = choose|a: int|
                                0 <= a < s0.t_count() && skeleton.final_skeleton@[a] && !flags0[a]
                                    && #[trigger] step_to(s0, epsilon, a, ind);
                        }
                    }
                    return Err(e);
                },
            };
            proof {
                lemma_nbr_slot_in_range(
                    skeleton.delaunay_triangles@,
                    ind as int,
                    0,
                    skeleton.t_count(),
                );
                lemma_nbr_slot_in_range(
                    skeleton.delaunay_triangles@,
                    ind as int,
                    1,
                    skeleton.t_count(),
                );
                lemma_nbr_slot_in_range(
                    skeleton.delaunay_triangles@,
                    ind as int,
                    2,
                    skeleton.t_count(),
                );
                lemma_core_step_stable(s0, *skeleton, epsilon);
                lemma_core_spec_stable(s0, *skeleton);
                assert(s0.tri_nondegenerate(ind as int));
            }
            if let Some(v) = nei.n0 {
                proof {
                    lemma_push_contains(to_propagate@, v);
                    assert(non_covered_slot(s0, ind as int, 0, epsilon) == Some(v));
                    assert(step_to(s0, epsilon, ind as int, v));
                }
                to_propagate.push(v);
            }
            if let Some(v) = nei.n1 {
                proof {
                    lemma_push_contains(to_propagate@, v);
                    assert(non_covered_slot(s0, ind as int, 1, epsilon) == Some(v));
                    assert(step_to(s0, epsilon, ind as int, v));
                }
                to_propagate.push(v);
            }
            if let Some(v) = nei.n2 {
                proof {
                    lemma_push_contains(to_propagate@, v);
                    assert(non_covered_slot(s0, ind as int, 2, epsilon) == Some(v));
                    assert(step_to(s0, epsilon, ind as int, v));
                }
                to_propagate.push(v);
            }
            skeleton.final_skeleton.set(ind, true);
            proof {
                let flags_after = skeleton.final_skeleton@;
                assert(unfinal_set(flags_after) =~= unfinal_set(flags_before).remove(ind as int));
                lemma_unfinal_finite(flags_before);
                assert(unfinal_set(flags_before).contains(ind as int));
                assert(unfinal_set(flags_after).len() < unfinal_set(flags_before).len());
                assert forall|a: int, b: usize|
                    0 <= a < s0.t_count() && flags_after[a] && !flags0[a] && #[trigger] step_to(
                        s0,
                        epsilon,
                        a,
                        b,
                    ) && 0 <= b < s0.t_count() implies flags_after[b as int]
                    || to_propagate@.contains(b) by {
                    if a == ind {
                        let k = choose|k: int|
                            0 <= k < 3 && #[trigger] non_covered_slot(s0, a, k, epsilon) == Some(
                                b,
                            );
                        assert(to_propagate@.contains(b));
                    } else {
                        assert(flags_before[a]);
                        if !(flags_before[b as int] || stack_before.contains(b)) {
                            assert(false);
                        }
                        if flags_before[b as int] {
                        } else if b == ind {
                        } else {
                            assert(to_propagate@.contains(b));
                        }
                    }
                }
            }
        }
    }
    proof {
        assert(skeleton.final_skeleton@[seed]);
        assert forall|t: int|
            0 <= t < s0.t_count() && (flags0[t] || fresh_reachable(
                s0,
                epsilon,
                flags0,
                seed,
                t,
            )) implies #[trigger] skeleton.final_skeleton@[t] by {
            if !flags0[t] {
                let n = choose|n: nat| fresh_reach(s0, epsilon, flags0, seed, t, n);
                lemma_fresh_reach_final(
                    s0,
                    epsilon,
                    flags0,
                    skeleton.final_skeleton@,
                    seed,
                    t,
                    n,
                );
            }
        }
    }
    Ok(())
}

/// The circumcircle of triangle `a` is strictly smaller than that of `b`.
pub open spec fn rad_lt(s: Skeleton, a: int, b: int) -> bool {
    geometry_operations::radius_lt_spec(s.circle_of(a), s.circle_of(b))
}

/// The triangles whose circumcircle is strictly larger than that of `t`.
pub open spec fn larger_set(s: Skeleton, t: int) -> Set<int> {
    Set::new(|j: int| 0 <= j < s.t_count() && s.tri_nondegenerate(j) && rad_lt(s, t, j))
}

/// The set of triangles with a larger circle is finite.
proof fn lemma_larger_finite(s: Skeleton, t: int)
    ensures
        larger_set(s, t).finite(),
        larger_set(s, t).len() <= s.t_count(),
{
    vstd::set_lib::lemma_int_range(0, s.t_count());
    vstd::set_lib::lemma_len_subset(
        larger_set(s, t),
        vstd::set_lib::set_int_range(0, s.t_count()),
    );
}


/// Spec values that read only the core (points, successor maps,
/// triangles) are unchanged by cache fills: two states with one core give
/// one answer.
proof fn lemma_core_spec_stable(a: Skeleton, b: Skeleton)
    requires
        a.same_core(b),
    ensures
        a.n() == b.n(),
        a.t_count() == b.t_count(),
        forall|t: int, k: int| #[trigger] b.tri_pt(t, k) == a.tri_pt(t, k),
        forall|t: int| #[trigger] b.tri_nondegenerate(t) == a.tri_nondegenerate(t),
        forall|t: int| #[trigger] b.circle_of(t) == a.circle_of(t),
        forall|t: int, k: int| #[trigger] b.non_crossing_slot(t, k) == a.non_crossing_slot(t, k),
        forall|x: int, y: int| #[trigger] rad_lt(b, x, y) == rad_lt(a, x, y),
        forall|t: int| #[trigger] larger_set(b, t) == larger_set(a, t),
{
    assert forall|t: int| #[trigger] larger_set(b, t) == larger_set(a, t) by {
        assert(larger_set(b, t) =~= larger_set(a, t));
    }
}


/// One step of the greedy ascent at triangle `t`, staged slot by slot:
/// fold over the three non-crossing slots, moving to a neighbor exactly
/// when its circle is strictly larger than the best seen so far — ties
/// keep the earlier candidate.  The step's result is `t` itself when no
/// neighbor improves.  This stage is the best candidate after slot 0.
pub open spec fn ascend_b1(s: Skeleton, t: int) -> int {
    match s.non_crossing_slot(t, 0) {
        Some(j) => if rad_lt(s, t, j as int) {
            j as int
        } else {
            t
        },
        None => t,
    }
}

/// The best candidate after the first two slots of the greedy fold.
pub open spec fn ascend_b2(s: Skeleton, t: int) -> int {
    let b1 = ascend_b1(s, t);
    match s.non_crossing_slot(t, 1) {
        Some(j) => if rad_lt(s, b1, j as int) {
            j as int
        } else {
            b1
        },
        None => b1,
    }
}

/// The greedy step's final choice, after the third slot.
pub open spec fn ascend_choice(s: Skeleton, t: int) -> int {
    let b2 = ascend_b2(s, t);
    match s.non_crossing_slot(t, 2) {
        Some(j) => if rad_lt(s, b2, j as int) {
            j as int
        } else {
            b2
        },
        None => b2,
    }
}

/// The greedy ascent iterated `n` times from `t`.
pub open spec fn ascend_iter(s: Skeleton, t: int, n: nat) -> int
    decreases n,
{
    if n == 0 {
        t
    } else {
        ascend_iter(s, ascend_choice(s, t), (n - 1) as nat)
    }
}

/// The greedy step reads only the core, so cache fills do not change it.
proof fn lemma_ascend_choice_stable(a: Skeleton, b: Skeleton)
    requires
        a.same_core(b),
    ensures
        forall|t: int| #[trigger] ascend_choice(b, t) == ascend_choice(a, t),
{
    lemma_core_spec_stable(a, b);
    assert forall|t: int| #[trigger] ascend_choice(b, t) == ascend_choice(a, t) by {}
}

/// The iterated ascent reads only the core.
proof fn lemma_ascend_iter_stable(a: Skeleton, b: Skeleton, t: int, n: nat)
    requires
        a.same_core(b),
    ensures
        ascend_iter(b, t, n) == ascend_iter(a, t, n),
    decreases n,
{
    lemma_ascend_choice_stable(a, b);
    if n > 0 {
        lemma_ascend_iter_stable(a, b, ascend_choice(a, t), (n - 1) as nat);
    }
}

/// Iterating once more applies the greedy step to the last triangle.
proof fn lemma_ascend_iter_snoc(s: Skeleton, t: int, n: nat)
    ensures
        ascend_iter(s, t, (n + 1) as nat) == ascend_choice(s, ascend_iter(s, t, n)),
    decreases n,
{
    assert(ascend_iter(s, t, (n + 1) as nat) == ascend_iter(s, ascend_choice(s, t), n));
    if n > 0 {
        lemma_ascend_iter_snoc(s, ascend_choice(s, t), (n - 1) as nat);
        assert(ascend_iter(s, ascend_choice(s, t), n) == ascend_choice(
            s,
            ascend_iter(s, ascend_choice(s, t), (n - 1) as nat),
        ));
        assert(ascend_iter(s, t, n) == ascend_iter(s, ascend_choice(s, t), (n - 1) as nat));
    }
}

/// The greedy ascent to a locally maximal inscribed circle: repeatedly
/// move to the non-crossing neighbor with the largest circumcircle while
/// one strictly exceeds the current circle; stop when none does.  The
/// result is a local maximum only, and it is deterministic given the
/// adjacency and the circles.  A degenerate circle along the way aborts
/// the ascent.
#[verifier::rlimit(100)]
pub fn find_nearest_maximum(skeleton: &mut Skeleton, ind_triangle: usize) -> (r: Result<
    usize,
    SkelError,
>)
    requires
        old(skeleton).wf(),
        ind_triangle < old(skeleton).t_count(),
    ensures
        final(skeleton).wf(),
        old(skeleton).same_core(*final(skeleton)),
        final(skeleton).final_skeleton == old(skeleton).final_skeleton,
        final(skeleton).covered == old(skeleton).covered,
        final(skeleton).delaunay_neighbors@.len() == old(skeleton).delaunay_neighbors@.len(),
        final(skeleton).skel_circles@.len() == old(skeleton).skel_circles@.len(),
        forall|j: int|
            0 <= j < old(skeleton).t_count() && (#[trigger] old(
                skeleton,
            ).delaunay_neighbors@[j]).is_some() ==> final(skeleton).delaunay_neighbors@[j] == old(
                skeleton,
            ).delaunay_neighbors@[j],
        forall|j: int|
            0 <= j < old(skeleton).t_count() && (#[trigger] old(
                skeleton,
            ).skel_circles@[j]).is_some() ==> final(skeleton).skel_circles@[j] == old(
                skeleton,
            ).skel_circles@[j],
        match r {
            Ok(t) => {
                &&& t < old(skeleton).t_count()
                &&& old(skeleton).tri_nondegenerate(t as int)
                &&& !rad_lt(*old(skeleton), t as int, ind_triangle as int)
                &&& ascend_choice(*old(skeleton), t as int) == t as int
                &&& exists|n: nat|
                    t as int == #[trigger] ascend_iter(
                        *old(skeleton),
                        ind_triangle as int,
                        n,
                    )
                &&& (match old(skeleton).non_crossing_slot(t as int, 0) {
                    Some(j) => old(skeleton).tri_nondegenerate(j as int) && !rad_lt(
                        *old(skeleton),
                        t as int,
                        j as int,
                    ),
                    None => true,
                })
                &&& (match old(skeleton).non_crossing_slot(t as int, 1) {
                    Some(j) => old(skeleton).tri_nondegenerate(j as int) && !rad_lt(
                        *old(skeleton),
                        t as int,
                        j as int,
                    ),
                    None => true,
                })
                &&& (match old(skeleton).non_crossing_slot(t as int, 2) {
                    Some(j) => old(skeleton).tri_nondegenerate(j as int) && !rad_lt(
                        *old(skeleton),
                        t as int,
                        j as int,
                    ),
                    None => true,
                })
            },
            Err(e) => e == SkelError::GeometryDegenerate && exists|t: int|
                0 <= t < old(skeleton).t_count() && !(#[trigger] old(skeleton).tri_nondegenerate(
                    t,
                )) && (t == ind_triangle || exists|a: int, k: int|
                    0 <= a < old(skeleton).t_count() && 0 <= k < 3 && old(
                        skeleton,
                    ).tri_nondegenerate(a) && #[trigger] old(skeleton).non_crossing_slot(a, k)
                        == Some(t as usize)),
        },
{
    let mut ind = ind_triangle;
    let mut cir = match skeleton.get_circle(ind) {
        Ok(c) => c,
        Err(e) => {
            return Err(e);
        },
    };
    let ghost mut steps: nat = 0nat;
    loop
        invariant_except_break
            skeleton.wf(),
            old(skeleton).same_core(*skeleton),
            skeleton.final_skeleton == old(skeleton).final_skeleton,
            skeleton.covered == old(skeleton).covered,
            skeleton.delaunay_neighbors@.len() == old(skeleton).delaunay_neighbors@.len(),
            skeleton.skel_circles@.len() == old(skeleton).skel_circles@.len(),
            forall|j: int|
                0 <= j < old(skeleton).t_count() && (#[trigger] old(
                    skeleton,
                ).delaunay_neighbors@[j]).is_some() ==> skeleton.delaunay_neighbors@[j] == old(
                    skeleton,
                ).delaunay_neighbors@[j],
            forall|j: int|
                0 <= j < old(skeleton).t_count() && (#[trigger] old(
                    skeleton,
                ).skel_circles@[j]).is_some() ==> skeleton.skel_circles@[j] == old(
                    skeleton,
                ).skel_circles@[j],
            ind < skeleton.t_count(),
            ind_triangle < skeleton.t_count(),
            skeleton.tri_nondegenerate(ind as int),
            skeleton.tri_nondegenerate(ind_triangle as int),
            !rad_lt(*skeleton, ind as int, ind_triangle as int),
            ind as int == ascend_iter(*skeleton, ind_triangle as int, steps),
            cir == skeleton.circle_of(ind as int),
            cir.wf(),
            cir.bounded(),
        ensures
            skeleton.wf(),
            old(skeleton).same_core(*skeleton),
            skeleton.final_skeleton == old(skeleton).final_skeleton,
            skeleton.covered == old(skeleton).covered,
            skeleton.delaunay_neighbors@.len() == old(skeleton).delaunay_neighbors@.len(),
            skeleton.skel_circles@.len() == old(skeleton).skel_circles@.len(),
            forall|j: int|
                0 <= j < old(skeleton).t_count() && (#[trigger] old(
                    skeleton,
                ).delaunay_neighbors@[j]).is_some() ==> skeleton.delaunay_neighbors@[j] == old(
                    skeleton,
                ).delaunay_neighbors@[j],
            forall|j: int|
                0 <= j < old(skeleton).t_count() && (#[trigger] old(
                    skeleton,
                ).skel_circles@[j]).is_some() ==> skeleton.skel_circles@[j] == old(
                    skeleton,
                ).skel_circles@[j],
            ind < skeleton.t_count(),
            ind_triangle < skeleton.t_count(),
            skeleton.tri_nondegenerate(ind as int),
            !rad_lt(*skeleton, ind as int, ind_triangle as int),
            ind as int == ascend_iter(*skeleton, ind_triangle as int, steps),
            ascend_choice(*skeleton, ind as int) == ind as int,
            (match skeleton.non_crossing_slot(ind as int, 0) {
                Some(j) => skeleton.tri_nondegenerate(j as int) && !rad_lt(
                    *skeleton,
                    ind as int,
                    j as int,
                ),
                None => true,
            }),
            (match skeleton.non_crossing_slot(ind as int, 1) {
                Some(j) => skeleton.tri_nondegenerate(j as int) && !rad_lt(
                    *skeleton,
                    ind as int,
                    j as int,
                ),
                None => true,
            }),
            (match skeleton.non_crossing_slot(ind as int, 2) {
                Some(j) => skeleton.tri_nondegenerate(j as int) && !rad_lt(
                    *skeleton,
                    ind as int,
                    j as int,
                ),
                None => true,
            }),
        decreases larger_set(*skeleton, ind as int).len(),
    {
        let ghost ind0 = ind as int;
        let ghost s_snap = *skeleton;
        let nei = skeleton.get_non_crossing_neighbors(ind);
        proof {
            lemma_core_spec_stable(s_snap, *skeleton);
            lemma_nbr_slot_in_range(skeleton.delaunay_triangles@, ind0, 0, skeleton.t_count());
            lemma_nbr_slot_in_range(skeleton.delaunay_triangles@, ind0, 1, skeleton.t_count());
            lemma_nbr_slot_in_range(skeleton.delaunay_triangles@, ind0, 2, skeleton.t_count());
        }
        let mut upd = false;
        if let Some(j) = nei.n0 {
            let cj = match skeleton.get_circle(j) {
                Ok(c) => c,
                Err(e) => {
                    proof {
                        lemma_core_spec_stable(*old(skeleton), s_snap);
                        assert(old(skeleton).non_crossing_slot(ind0, 0) == Some(j));
                        assert(old(skeleton).tri_nondegenerate(ind0));
                    }
                    return Err(e);
                },
            };
            if geometry_operations::radius_lt(&cir, &cj) {
                upd = true;
                ind = j;
                cir = cj;
            }
        }
        proof {
            lemma_core_spec_stable(s_snap, *skeleton);
            if upd {
                assert(rad_lt(s_snap, ind0, ind as int) && s_snap.tri_nondegenerate(ind as int));
            } else {
                assert(ind == ind0);
            }
            assert(ind as int == ascend_b1(s_snap, ind0));
        }
        if let Some(j) = nei.n1 {
            let cj = match skeleton.get_circle(j) {
                Ok(c) => c,
                Err(e) => {
                    proof {
                        lemma_core_spec_stable(*old(skeleton), s_snap);
                        assert(old(skeleton).non_crossing_slot(ind0, 1) == Some(j));
                        assert(old(skeleton).tri_nondegenerate(ind0));
                    }
                    return Err(e);
                },
            };
            if geometry_operations::radius_lt(&cir, &cj) {
                proof {
                    lemma_core_spec_stable(s_snap, *skeleton);
                    if upd {
                        geometry_operations::lemma_radius_lt_trans(
                            s_snap.circle_of(ind0),
                            s_snap.circle_of(ind as int),
                            s_snap.circle_of(j as int),
                        );
                    }
                }
                upd = true;
                ind = j;
                cir = cj;
            }
        }
        proof {
            lemma_core_spec_stable(s_snap, *skeleton);
            if upd {
                assert(rad_lt(s_snap, ind0, ind as int) && s_snap.tri_nondegenerate(ind as int));
            } else {
                assert(ind == ind0);
            }
            assert(ind as int == ascend_b2(s_snap, ind0));
        }
        if let Some(j) = nei.n2 {
            let cj = match skeleton.get_circle(j) {
                Ok(c) => c,
                Err(e) => {
                    proof {
                        lemma_core_spec_stable(*old(skeleton), s_snap);
                        assert(old(skeleton).non_crossing_slot(ind0, 2) == Some(j));
                        assert(old(skeleton).tri_nondegenerate(ind0));
                    }
                    return Err(e);
                },
            };
            if geometry_operations::radius_lt(&cir, &cj) {
                proof {
                    lemma_core_spec_stable(s_snap, *skeleton);
                    if upd {
                        geometry_operations::lemma_radius_lt_trans(
                            s_snap.circle_of(ind0),
                            s_snap.circle_of(ind as int),
                            s_snap.circle_of(j as int),
                        );
                    }
                }
                upd = true;
                ind = j;
                cir = cj;
            }
        }
        proof {
            lemma_core_spec_stable(s_snap, *skeleton);
            assert(ind as int == ascend_choice(s_snap, ind0));
            if upd {
                assert(rad_lt(s_snap, ind0, ind as int) && s_snap.tri_nondegenerate(ind as int));
                geometry_operations::lemma_circle_spec_equidistant(
                    s_snap.tri_pt(ind_triangle as int, 0),
                    s_snap.tri_pt(ind_triangle as int, 1),
                    s_snap.tri_pt(ind_triangle as int, 2),
                );
                geometry_operations::lemma_circle_spec_equidistant(
                    s_snap.tri_pt(ind0, 0),
                    s_snap.tri_pt(ind0, 1),
                    s_snap.tri_pt(ind0, 2),
                );
                geometry_operations::lemma_circle_spec_equidistant(
                    s_snap.tri_pt(ind as int, 0),
                    s_snap.tri_pt(ind as int, 1),
                    s_snap.tri_pt(ind as int, 2),
                );
                if rad_lt(s_snap, ind as int, ind_triangle as int) {
                    geometry_operations::lemma_radius_lt_trans(
                        s_snap.circle_of(ind0),
                        s_snap.circle_of(ind as int),
                        s_snap.circle_of(ind_triangle as int),
                    );
                    assert(false);
                }
            } else {
                assert(ind == ind0);
            }
        }
        if !upd {
            proof {
                lemma_core_spec_stable(s_snap, *skeleton);
                lemma_ascend_choice_stable(s_snap, *skeleton);
                lemma_ascend_iter_stable(s_snap, *skeleton, ind_triangle as int, steps);
                assert(ascend_choice(*skeleton, ind as int) == ind as int);
            }
            break ;
        }
        proof {
            lemma_core_spec_stable(s_snap, *skeleton);
            let new = ind as int;
            assert forall|m: int| larger_set(s_snap, new).contains(m) implies larger_set(
                s_snap,
                ind0,
            ).remove(new).contains(m) by {
                geometry_operations::lemma_circle_spec_equidistant(
                    s_snap.tri_pt(m, 0),
                    s_snap.tri_pt(m, 1),
                    s_snap.tri_pt(m, 2),
                );
                geometry_operations::lemma_radius_lt_trans(
                    s_snap.circle_of(ind0),
                    s_snap.circle_of(new),
                    s_snap.circle_of(m),
                );
            }
            lemma_larger_finite(s_snap, ind0);
            lemma_larger_finite(s_snap, new);
            assert(larger_set(s_snap, ind0).contains(new));
            assert(larger_set(s_snap, ind0).remove(new).insert(new) =~= larger_set(s_snap, ind0));
            assert(larger_set(s_snap, ind0).remove(new).len() == larger_set(s_snap, ind0).len()
                - 1);
            vstd::set_lib::lemma_len_subset(
                larger_set(s_snap, new),
                larger_set(s_snap, ind0).remove(new),
            );
            assert(larger_set(s_snap, new).len() < larger_set(s_snap, ind0).len());
            lemma_ascend_iter_stable(s_snap, *skeleton, ind_triangle as int, (steps + 1) as nat);
            lemma_ascend_iter_snoc(s_snap, ind_triangle as int, steps);
            assert(ind as int == ascend_iter(s_snap, ind_triangle as int, (steps + 1) as nat));
            steps = steps + 1;
        }
    }
    proof {
        lemma_core_spec_stable(*old(skeleton), *skeleton);
        lemma_ascend_choice_stable(*old(skeleton), *skeleton);
        lemma_ascend_iter_stable(*old(skeleton), *skeleton, ind_triangle as int, steps);
        assert(ind as int == ascend_iter(*old(skeleton), ind_triangle as int, steps));
    }
    Ok(ind)
}

/// An adjacency scan over a common prefix gives one answer in both
/// triangle lists.
proof fn lemma_nbr_slot_prefix(tris1: Seq<Triangle>, tris2: Seq<Triangle>, t: int, k: int, m: int)
    requires
        0 <= t,
        m <= tris1.len(),
        m <= tris2.len(),
        t < tris1.len(),
        t < tris2.len(),
        tris1[t] == tris2[t],
        forall|j: int| 0 <= j < m ==> tris1[j] == tris2[j],
    ensures
        nbr_slot_upto(tris1, t, k, m) == nbr_slot_upto(tris2, t, k, m),
    decreases m,
{
    if m > 0 {
        lemma_nbr_slot_prefix(tris1, tris2, t, k, m - 1);
    }
}

/// Scanning past triangles whose vertices all lie in a later index block
/// never changes the adjacency of a triangle indexing the earlier block:
/// they cannot share a vertex.
proof fn lemma_nbr_slot_no_new(
    tris: Seq<Triangle>,
    t: int,
    k: int,
    base: int,
    m: int,
    n_old: int,
)
    requires
        0 <= base <= m <= tris.len(),
        0 <= t < tris.len(),
        tris[t].in_range(n_old),
        forall|j: int|
            base <= j < m ==> (#[trigger] tris[j]).v0 >= n_old && tris[j].v1 >= n_old
                && tris[j].v2 >= n_old,
    ensures
        nbr_slot_upto(tris, t, k, m) == nbr_slot_upto(tris, t, k, base),
    decreases m - base,
{
    if m > base {
        lemma_nbr_slot_no_new(tris, t, k, base, m - 1, n_old);
        assert(!edge_nbr_cond(tris[t], tris[m - 1], k));
    }
}


/// The appended loop's own data is consistent: its maps close among its
/// points, and the triangulation is whole triples of in-range indices.
pub open spec fn append_input_ok(
    pts_len: int,
    nxt: Seq<usize>,
    prv: Seq<usize>,
    tri_ind: Seq<usize>,
) -> bool {
    &&& maps_closed(pts_len, nxt, prv)
    &&& tri_ind.len() % 3 == 0
    &&& forall|i: int| 0 <= i < tri_ind.len() ==> (#[trigger] tri_ind[i]) < pts_len
}

/// State `b` is state `a` with one loop appended: the loop's points and
/// its (offset) successor and predecessor maps extend the arena, the
/// (offset) triangulation extends the triangle list with fresh cache
/// entries and unset finality flags, and nothing earlier changed.
pub open spec fn appended_state(
    a: Skeleton,
    b: Skeleton,
    pts: Seq<Point2>,
    nxt: Seq<usize>,
    prv: Seq<usize>,
    tri_ind: Seq<usize>,
) -> bool {
    &&& b.n() == a.n() + pts.len()
    &&& b.next_neighbor@.len() == b.n()
    &&& b.prev_neighbor@.len() == b.n()
    &&& 3 * b.t_count() == 3 * a.t_count() + tri_ind.len()
    &&& forall|q: int|
        0 <= q < a.n() ==> (#[trigger] b.boundary_points@[q]) == a.boundary_points@[q]
    &&& forall|q: int| 0 <= q < a.n() ==> (#[trigger] b.next_neighbor@[q]) == a.next_neighbor@[q]
    &&& forall|q: int| 0 <= q < a.n() ==> (#[trigger] b.prev_neighbor@[q]) == a.prev_neighbor@[q]
    &&& forall|q: int|
        0 <= q < pts.len() ==> (#[trigger] b.boundary_points@[a.n() + q]) == pts[q]
    &&& forall|q: int|
        0 <= q < pts.len() ==> (#[trigger] b.next_neighbor@[a.n() + q]) == (nxt[q] + a.n()) as usize
    &&& forall|q: int|
        0 <= q < pts.len() ==> (#[trigger] b.prev_neighbor@[a.n() + q]) == (prv[q] + a.n()) as usize
    &&& forall|q: int|
        0 <= q < a.t_count() ==> (#[trigger] b.delaunay_triangles@[q]) == a.delaunay_triangles@[q]
    &&& forall|q: int|
        0 <= q < a.t_count() ==> (#[trigger] b.delaunay_neighbors@[q]) == a.delaunay_neighbors@[q]
    &&& forall|q: int|
        0 <= q < a.t_count() ==> (#[trigger] b.skel_circles@[q]) == a.skel_circles@[q]
    &&& forall|q: int| 0 <= q < a.t_count() ==> (#[trigger] b.covered@[q]) == a.covered@[q]
    &&& forall|q: int|
        0 <= q < a.t_count() ==> (#[trigger] b.final_skeleton@[q]) == a.final_skeleton@[q]
    &&& forall|q: int|
        a.t_count() <= q < b.t_count() ==> (#[trigger] b.delaunay_triangles@[q]) == (Triangle {
            v0: (tri_ind[3 * (q - a.t_count())] + a.n()) as usize,
            v1: (tri_ind[3 * (q - a.t_count()) + 1] + a.n()) as usize,
            v2: (tri_ind[3 * (q - a.t_count()) + 2] + a.n()) as usize,
        })
    &&& forall|q: int|
        a.t_count() <= q < b.t_count() ==> (#[trigger] b.delaunay_neighbors@[q]).is_none()
    &&& forall|q: int|
        a.t_count() <= q < b.t_count() ==> (#[trigger] b.skel_circles@[q]).is_none()
    &&& forall|q: int| a.t_count() <= q < b.t_count() ==> (#[trigger] b.covered@[q]).is_none()
    &&& forall|q: int|
        a.t_count() <= q < b.t_count() ==> !(#[trigger] b.final_skeleton@[q])
    &&& b.delaunay_neighbors@.len() == b.t_count()
    &&& b.skel_circles@.len() == b.t_count()
    &&& b.covered@.len() == b.t_count()
    &&& b.final_skeleton@.len() == b.t_count()
}

/// A well-formed engine stays well formed under an append whose loop data
/// is itself consistent: the new block's maps close among themselves, its
/// triangles index only the new block, and the old adjacency and circle
/// caches keep their meaning because old and new triangles never share a
/// vertex.
proof fn lemma_appended_wf(
    a: Skeleton,
    b: Skeleton,
    pts: Seq<Point2>,
    nxt: Seq<usize>,
    prv: Seq<usize>,
    tri_ind: Seq<usize>,
)
    requires
        a.wf(),
        appended_state(a, b, pts, nxt, prv, tri_ind),
        nxt.len() == pts.len(),
        prv.len() == pts.len(),
        a.n() + pts.len() < usize::MAX,
        forall|i: int| 0 <= i < pts.len() ==> (#[trigger] pts[i]).in_bounds(),
        forall|i: int| 0 <= i < pts.len() ==> (#[trigger] nxt[i]) < pts.len(),
        forall|i: int| 0 <= i < pts.len() ==> (#[trigger] prv[i]) < pts.len(),
        forall|i: int| 0 <= i < pts.len() ==> prv[#[trigger] nxt[i] as int] == i,
        forall|i: int| 0 <= i < pts.len() ==> nxt[#[trigger] prv[i] as int] == i,
        forall|i: int| 0 <= i < tri_ind.len() ==> (#[trigger] tri_ind[i]) < pts.len(),
    ensures
        b.wf(),
{
    let n0 = a.n();
    let t0 = a.t_count();
    assert forall|i: int| 0 <= i < b.n() implies (#[trigger] b.boundary_points@[i]).in_bounds() by {
        if i >= n0 {
            let q = i - n0;
            assert(b.boundary_points@[n0 + q] == pts[q]);
        }
    }
    assert forall|i: int| 0 <= i < b.n() implies (#[trigger] b.next_neighbor@[i]) < b.n() by {
        if i >= n0 {
            let q = i - n0;
            assert(b.next_neighbor@[n0 + q] == (nxt[q] + n0) as usize);
        }
    }
    assert forall|i: int| 0 <= i < b.n() implies (#[trigger] b.prev_neighbor@[i]) < b.n() by {
        if i >= n0 {
            let q = i - n0;
            assert(b.prev_neighbor@[n0 + q] == (prv[q] + n0) as usize);
        }
    }
    assert forall|i: int|
        0 <= i < b.n() implies b.prev_neighbor@[#[trigger] b.next_neighbor@[i] as int] == i by {
        if i < n0 {
            assert(b.next_neighbor@[i] == a.next_neighbor@[i]);
            assert(a.next_neighbor@[i] < n0);
            assert(b.prev_neighbor@[a.next_neighbor@[i] as int] == a.prev_neighbor@[
                a.next_neighbor@[i] as int]);
        } else {
            let q = i - n0;
            assert(b.next_neighbor@[n0 + q] == (nxt[q] + n0) as usize);
            assert(b.prev_neighbor@[n0 + (nxt[q] as int)] == (prv[nxt[q] as int] + n0) as usize);
        }
    }
    assert forall|i: int|
        0 <= i < b.n() implies b.next_neighbor@[#[trigger] b.prev_neighbor@[i] as int] == i by {
        if i < n0 {
            assert(b.next_neighbor@[i] == a.next_neighbor@[i]);
            assert(a.next_neighbor@[i] < n0);
            assert(a.prev_neighbor@[i] < n0);
            assert(b.prev_neighbor@[a.next_neighbor@[i] as int] == a.prev_neighbor@[
                a.next_neighbor@[i] as int]);
            assert(b.next_neighbor@[a.prev_neighbor@[i] as int] == a.next_neighbor@[
                a.prev_neighbor@[i] as int]);
        } else {
            let q = i - n0;
            assert(b.next_neighbor@[n0 + q] == (nxt[q] + n0) as usize);
            assert(b.prev_neighbor@[n0 + (nxt[q] as int)] == (prv[nxt[q] as int] + n0) as usize);
            assert(b.prev_neighbor@[n0 + q] == (prv[q] + n0) as usize);
            assert(b.next_neighbor@[n0 + (prv[q] as int)] == (nxt[prv[q] as int] + n0) as usize);
        }
    }
    assert forall|t: int|
        0 <= t < b.t_count() implies (#[trigger] b.delaunay_triangles@[t]).in_range(b.n()) by {
        if t < t0 {
            assert(b.delaunay_triangles@[t] == a.delaunay_triangles@[t]);
            assert(a.delaunay_triangles@[t].in_range(n0));
        } else {
            assert(3 * (t - t0) + 2 < tri_ind.len());
            assert(tri_ind[3 * (t - t0)] < pts.len());
            assert(tri_ind[3 * (t - t0) + 1] < pts.len());
            assert(tri_ind[3 * (t - t0) + 2] < pts.len());
        }
    }
    assert forall|t: int|
        0 <= t < b.t_count() && (#[trigger] b.delaunay_neighbors@[t]).is_some() implies b.delaunay_neighbors@[t].unwrap()
        == b.neighbors_of(t) by {
        assert(t < t0);
        assert(b.delaunay_neighbors@[t] == a.delaunay_neighbors@[t]);
        assert(a.delaunay_neighbors@[t].unwrap() == a.neighbors_of(t));
        lemma_slots_preserved(a, b, tri_ind, t);
    }
    assert forall|t: int|
        0 <= t < b.t_count() && (#[trigger] b.skel_circles@[t]).is_some() implies b.tri_nondegenerate(
        t,
    ) && b.skel_circles@[t].unwrap() == b.circle_of(t) by {
        assert(t < t0);
        assert(b.delaunay_triangles@[t] == a.delaunay_triangles@[t]);
        assert(a.delaunay_triangles@[t].in_range(n0));
        assert(b.tri_pt(t, 0) == a.tri_pt(t, 0));
        assert(b.tri_pt(t, 1) == a.tri_pt(t, 1));
        assert(b.tri_pt(t, 2) == a.tri_pt(t, 2));
    }
    assert(b.boundary_wf());
    assert(b.triangles_wf());
    assert(b.caches_wf());
}

/// The adjacency of an old triangle is unchanged by appending a block of
/// triangles over fresh points.
proof fn lemma_slots_preserved(a: Skeleton, b: Skeleton, tri_ind: Seq<usize>, t: int)
    requires
        a.wf(),
        0 <= t < a.t_count(),
        b.t_count() >= a.t_count(),
        b.delaunay_triangles@.len() == b.t_count(),
        forall|q: int|
            0 <= q < a.t_count() ==> (#[trigger] b.delaunay_triangles@[q])
                == a.delaunay_triangles@[q],
        forall|q: int|
            a.t_count() <= q < b.t_count() ==> (#[trigger] b.delaunay_triangles@[q]).v0 >= a.n()
                && b.delaunay_triangles@[q].v1 >= a.n() && b.delaunay_triangles@[q].v2 >= a.n(),
    ensures
        b.neighbors_of(t) == a.neighbors_of(t),
{
    let t0 = a.t_count();
    assert(b.delaunay_triangles@[t].in_range(a.n()));
    lemma_nbr_slot_no_new(b.delaunay_triangles@, t, 0, t0, b.t_count(), a.n());
    lemma_nbr_slot_no_new(b.delaunay_triangles@, t, 1, t0, b.t_count(), a.n());
    lemma_nbr_slot_no_new(b.delaunay_triangles@, t, 2, t0, b.t_count(), a.n());
    lemma_nbr_slot_prefix(b.delaunay_triangles@, a.delaunay_triangles@, t, 0, t0);
    lemma_nbr_slot_prefix(b.delaunay_triangles@, a.delaunay_triangles@, t, 1, t0);
    lemma_nbr_slot_prefix(b.delaunay_triangles@, a.delaunay_triangles@, t, 2, t0);
}

/// Appends one boundary loop and its externally produced triangulation to
/// the engine, both with the current arena size as index offset, and
/// returns the loop's seed triangle.  The loop's successor and predecessor
/// maps and the triangulation's indices are validated first; the loop then
/// gets its own private block of points and triangles, never shared with
/// earlier loops.
pub fn append_and_find_first(
    skeleton: &mut Skeleton,
    boundary_points: &Vec<Point2>,
    next_neighbor: &Vec<usize>,
    prev_neighbor: &Vec<usize>,
    triangle_indices: &Vec<usize>,
) -> (r: Result<usize, SkelError>)
    requires
        old(skeleton).wf(),
        forall|i: int|
            0 <= i < boundary_points@.len() ==> (#[trigger] boundary_points@[i]).in_bounds(),
        old(skeleton).n() + boundary_points@.len() < usize::MAX,
    ensures
        final(skeleton).wf(),
        match r {
            Err(SkelError::IndexInconsistency) => *final(skeleton) == *old(skeleton)
                && !append_input_ok(boundary_points@.len() as int, next_neighbor@, prev_neighbor@,
                triangle_indices@),
            _ => append_input_ok(boundary_points@.len() as int, next_neighbor@, prev_neighbor@,
                triangle_indices@) && appended_state(*old(skeleton), *final(skeleton),
                boundary_points@, next_neighbor@, prev_neighbor@, triangle_indices@) && (match r {
                Ok(t) => t < final(skeleton).t_count() && seed_of(
                    *final(skeleton),
                    old(skeleton).n(),
                ) == Some(t as int),
                Err(SkelError::EmptyInput) => boundary_points@.len() == 0,
                Err(SkelError::SeedNotFound) => boundary_points@.len() > 0 && seed_of(
                    *final(skeleton),
                    old(skeleton).n(),
                ).is_none(),
                _ => false,
            }),
        },
{
    if !check_cycles(boundary_points, next_neighbor, prev_neighbor) {
        return Err(SkelError::IndexInconsistency);
    }
    if triangle_indices.len() % 3 != 0 {
        return Err(SkelError::IndexInconsistency);
    }
    let n_local = boundary_points.len();
    let mut i: usize = 0;
    while i < triangle_indices.len()
        invariant
            0 <= i <= triangle_indices@.len(),
            forall|m: int| 0 <= m < i ==> (#[trigger] triangle_indices@[m]) < n_local,
            n_local == boundary_points@.len(),
            *skeleton == *old(skeleton),
            old(skeleton).wf(),
        decreases triangle_indices@.len() - i,
    {
        if triangle_indices[i] >= n_local {
            return Err(SkelError::IndexInconsistency);
        }
        i = i + 1;
    }
    let size_bef = skeleton.boundary_points.len();
    let mut i: usize = 0;
    while i < n_local
        invariant
            0 <= i <= n_local,
            n_local == boundary_points@.len(),
            size_bef == old(skeleton).n(),
            size_bef + n_local < usize::MAX,
            forall|m: int|
                0 <= m < n_local ==> (#[trigger] boundary_points@[m]).in_bounds(),
            forall|m: int| 0 <= m < n_local ==> (#[trigger] next_neighbor@[m]) < n_local,
            forall|m: int| 0 <= m < n_local ==> (#[trigger] prev_neighbor@[m]) < n_local,
            next_neighbor@.len() == n_local,
            prev_neighbor@.len() == n_local,
            skeleton.boundary_points@.len() == size_bef + i,
            skeleton.next_neighbor@.len() == size_bef + i,
            skeleton.prev_neighbor@.len() == size_bef + i,
            forall|q: int|
                0 <= q < size_bef ==> (#[trigger] skeleton.boundary_points@[q]) == old(
                    skeleton,
                ).boundary_points@[q],
            forall|q: int|
                0 <= q < size_bef ==> (#[trigger] skeleton.next_neighbor@[q]) == old(
                    skeleton,
                ).next_neighbor@[q],
            forall|q: int|
                0 <= q < size_bef ==> (#[trigger] skeleton.prev_neighbor@[q]) == old(
                    skeleton,
                ).prev_neighbor@[q],
            forall|q: int|
                0 <= q < i ==> (#[trigger] skeleton.boundary_points@[size_bef + q])
                    == boundary_points@[q],
            forall|q: int|
                0 <= q < i ==> (#[trigger] skeleton.next_neighbor@[size_bef + q]) == (
                next_neighbor@[q] + size_bef) as usize,
            forall|q: int|
                0 <= q < i ==> (#[trigger] skeleton.prev_neighbor@[size_bef + q]) == (
                prev_neighbor@[q] + size_bef) as usize,
            skeleton.delaunay_triangles == old(skeleton).delaunay_triangles,
            skeleton.delaunay_neighbors == old(skeleton).delaunay_neighbors,
            skeleton.skel_circles == old(skeleton).skel_circles,
            skeleton.covered == old(skeleton).covered,
            skeleton.final_skeleton == old(skeleton).final_skeleton,
        decreases n_local - i,
    {
        skeleton.boundary_points.push(boundary_points[i]);
        skeleton.next_neighbor.push(next_neighbor[i] + size_bef);
        skeleton.prev_neighbor.push(prev_neighbor[i] + size_bef);
        i = i + 1;
    }
    let ghost pts_mid = *skeleton;
    let t_bef = skeleton.delaunay_triangles.len();
    let count = triangle_indices.len() / 3;
    proof {
        assert(count * 3 == triangle_indices@.len());
    }
    let mut m: usize = 0;
    while m < count
        invariant
            0 <= m <= count,
            count * 3 == triangle_indices@.len(),
            triangle_indices@.len() <= usize::MAX,
            n_local == boundary_points@.len(),
            size_bef == old(skeleton).n(),
            size_bef + n_local < usize::MAX,
            t_bef == old(skeleton).t_count(),
            forall|q: int| 0 <= q < triangle_indices@.len() ==> (#[trigger] triangle_indices@[q])
                < n_local,
            skeleton.boundary_points@.len() == size_bef + n_local,
            skeleton.next_neighbor@.len() == size_bef + n_local,
            skeleton.prev_neighbor@.len() == size_bef + n_local,
            skeleton.boundary_points == pts_mid.boundary_points,
            skeleton.next_neighbor == pts_mid.next_neighbor,
            skeleton.prev_neighbor == pts_mid.prev_neighbor,
            skeleton.delaunay_triangles@.len() == t_bef + m,
            skeleton.delaunay_neighbors@.len() == t_bef + m,
            skeleton.skel_circles@.len() == t_bef + m,
            skeleton.covered@.len() == t_bef + m,
            skeleton.final_skeleton@.len() == t_bef + m,
            forall|q: int|
                0 <= q < t_bef ==> (#[trigger] skeleton.delaunay_triangles@[q]) == old(
                    skeleton,
                ).delaunay_triangles@[q],
            forall|q: int|
                0 <= q < t_bef ==> (#[trigger] skeleton.delaunay_neighbors@[q]) == old(
                    skeleton,
                ).delaunay_neighbors@[q],
            forall|q: int|
                0 <= q < t_bef ==> (#[trigger] skeleton.skel_circles@[q]) == old(
                    skeleton,
                ).skel_circles@[q],
            forall|q: int|
                0 <= q < t_bef ==> (#[trigger] skeleton.covered@[q]) == old(skeleton).covered@[q],
            forall|q: int|
                0 <= q < t_bef ==> (#[trigger] skeleton.final_skeleton@[q]) == old(
                    skeleton,
                ).final_skeleton@[q],
            forall|q: int|
                t_bef <= q < t_bef + m ==> (#[trigger] skeleton.delaunay_triangles@[q])
                    == (Triangle {
                    v0: (triangle_indices@[3 * (q - t_bef)] + size_bef) as usize,
                    v1: (triangle_indices@[3 * (q - t_bef) + 1] + size_bef) as usize,
                    v2: (triangle_indices@[3 * (q - t_bef) + 2] + size_bef) as usize,
                }),
            forall|q: int|
                t_bef <= q < t_bef + m ==> (#[trigger] skeleton.delaunay_neighbors@[q]).is_none(),
            forall|q: int|
                t_bef <= q < t_bef + m ==> (#[trigger] skeleton.skel_circles@[q]).is_none(),
            forall|q: int|
                t_bef <= q < t_bef + m ==> (#[trigger] skeleton.covered@[q]).is_none(),
            forall|q: int|
                t_bef <= q < t_bef + m ==> !(#[trigger] skeleton.final_skeleton@[q]),
        decreases count - m,
    {
        proof {
            assert(3 * m + 2 < triangle_indices@.len());
        }
        let base = 3 * m;
        let tri = Triangle {
            v0: triangle_indices[base] + size_bef,
            v1: triangle_indices[base + 1] + size_bef,
            v2: triangle_indices[base + 2] + size_bef,
        };
        skeleton.delaunay_triangles.push(tri);
        skeleton.delaunay_neighbors.push(None);
        skeleton.skel_circles.push(None);
        skeleton.covered.push(None);
        skeleton.final_skeleton.push(false);
        m = m + 1;
    }
    proof {
        let a = *old(skeleton);
        let b = *skeleton;
        assert forall|q: int| 0 <= q < boundary_points@.len() implies (
            #[trigger] b.boundary_points@[a.n() + q]) == boundary_points@[q] by {
            assert(b.boundary_points@[size_bef + q] == boundary_points@[q]);
        }
        assert forall|q: int| 0 <= q < boundary_points@.len() implies (
            #[trigger] b.next_neighbor@[a.n() + q]) == (next_neighbor@[q] + a.n()) as usize by {
            assert(b.next_neighbor@[size_bef + q] == (next_neighbor@[q] + size_bef) as usize);
        }
        assert forall|q: int| 0 <= q < boundary_points@.len() implies (
            #[trigger] b.prev_neighbor@[a.n() + q]) == (prev_neighbor@[q] + a.n()) as usize by {
            assert(b.prev_neighbor@[size_bef + q] == (prev_neighbor@[q] + size_bef) as usize);
        }
        assert forall|q: int| a.t_count() <= q < b.t_count() implies (
            #[trigger] b.delaunay_triangles@[q]) == (Triangle {
            v0: (triangle_indices@[3 * (q - a.t_count())] + a.n()) as usize,
            v1: (triangle_indices@[3 * (q - a.t_count()) + 1] + a.n()) as usize,
            v2: (triangle_indices@[3 * (q - a.t_count()) + 2] + a.n()) as usize,
        }) by {
            assert(b.delaunay_triangles@[q] == (Triangle {
                v0: (triangle_indices@[3 * (q - t_bef)] + size_bef) as usize,
                v1: (triangle_indices@[3 * (q - t_bef) + 1] + size_bef) as usize,
                v2: (triangle_indices@[3 * (q - t_bef) + 2] + size_bef) as usize,
            }));
        }
        assert(appended_state(a, b, boundary_points@, next_neighbor@, prev_neighbor@,
            triangle_indices@));
        lemma_appended_wf(a, b, boundary_points@, next_neighbor@, prev_neighbor@,
            triangle_indices@);
    }
    match skeleton.seed_search(size_bef) {
        Ok(t) => Ok(t),
        Err(e) => Err(e),
    }
}

/// The seed triangle over the whole boundary: the deterministic starting
/// triangle for the maximal-circle ascent, found from the extremal corner
/// of all points.  Fails on an empty boundary, or when no triangle holds
/// the expected pair — a degenerate or incomplete triangulation.
pub fn find_first_in(skeleton: &mut Skeleton) -> (r: Result<usize, SkelError>)
    requires
        old(skeleton).wf(),
    ensures
        *final(skeleton) == *old(skeleton),
        match r {
            Ok(t) => old(skeleton).n() > 0 && t < old(skeleton).t_count() && seed_of(
                *old(skeleton),
                0,
            ) == Some(t as int),
            Err(e) => {
                ||| (e == SkelError::EmptyInput && old(skeleton).n() == 0)
                ||| (e == SkelError::SeedNotFound && old(skeleton).n() > 0 && seed_of(
                    *old(skeleton),
                    0,
                ).is_none())
            },
        },
{
    skeleton.seed_search(0)
}

/// The coverage walk along one triangle edge, as a recursive function of
/// the walk state.  Starting at `icur` (initially the edge endpoint `i2`)
/// the walk follows successor pointers toward `i1`.  It succeeds — the
/// edge is covered — when it reaches the point whose successor is `i1`,
/// every visited point on the way lying strictly inside the dilated
/// circle; it fails when a visited point falls outside, when it wraps
/// around to `i2` without meeting `i1`, or when the fuel (one more than
/// the point count, which a cycle-closed boundary never exhausts) runs
/// out.  The second component is the run of visited points, meaningful
/// when the walk succeeds.
pub open spec fn walk_edge(
    pts: Seq<Point2>,
    nxt: Seq<usize>,
    c: Circle,
    eps: crate::Epsilon,
    i1: usize,
    i2: usize,
    icur: usize,
    fuel: nat,
) -> (bool, Seq<usize>)
    decreases fuel,
{
    if fuel == 0 {
        (false, Seq::empty())
    } else if nxt[icur as int] == i1 {
        (true, seq![icur])
    } else if !geometry_operations::point_in_dilated_circle(c, pts[icur as int], eps) {
        (false, Seq::empty())
    } else if nxt[icur as int] == i2 {
        (false, Seq::empty())
    } else {
        let rec = walk_edge(pts, nxt, c, eps, i1, i2, nxt[icur as int], (fuel - 1) as nat);
        (rec.0, seq![icur] + rec.1)
    }
}

/// Whether the edge of triangle `t` opposite vertex position `k` is
/// covered by the dilated circumcircle of `t`.
pub open spec fn edge_covered(s: Skeleton, t: int, k: int, eps: crate::Epsilon) -> bool {
    let tri = s.delaunay_triangles@[t];
    let i1 = tri.vert(k + 1);
    let i2 = tri.vert(k + 2);
    walk_edge(
        s.boundary_points@,
        s.next_neighbor@,
        s.circle_of(t),
        eps,
        i1,
        i2,
        i2,
        (s.n() + 1) as nat,
    ).0
}

/// The run of boundary points visited by the coverage walk of edge `k`,
/// when that edge is covered; empty otherwise, and empty for hull edges.
pub open spec fn edge_run_or_empty(s: Skeleton, t: int, k: int, eps: crate::Epsilon) -> Seq<
    usize,
> {
    match nbr_slot(s.delaunay_triangles@, t, k) {
        Some(_) => {
            let tri = s.delaunay_triangles@[t];
            let i1 = tri.vert(k + 1);
            let i2 = tri.vert(k + 2);
            let w = walk_edge(
                s.boundary_points@,
                s.next_neighbor@,
                s.circle_of(t),
                eps,
                i1,
                i2,
                i2,
                (s.n() + 1) as nat,
            );
            if w.0 {
                w.1
            } else {
                Seq::empty()
            }
        },
        None => Seq::empty(),
    }
}

/// The adjacency slot `k` of triangle `t` with covered edges suppressed:
/// propagation does not cross an edge whose boundary arc the dilated
/// circle already explains.
pub open spec fn non_covered_slot(s: Skeleton, t: int, k: int, eps: crate::Epsilon) -> Option<
    usize,
> {
    match nbr_slot(s.delaunay_triangles@, t, k) {
        Some(j) => if edge_covered(s, t, k, eps) {
            None
        } else {
            Some(j)
        },
        None => None,
    }
}

/// Everything the coverage pass of triangle `t` records: the triangle's
/// own three vertices, plus the visited run of every covered edge.
pub open spec fn coverage_seq(s: Skeleton, t: int, eps: crate::Epsilon) -> Seq<usize> {
    let tri = s.delaunay_triangles@[t];
    seq![tri.v0, tri.v1, tri.v2] + edge_run_or_empty(s, t, 0, eps) + edge_run_or_empty(
        s,
        t,
        1,
        eps,
    ) + edge_run_or_empty(s, t, 2, eps)
}

/// The elements of a sequence are strictly increasing: sorted ascending
/// with no duplicates.
pub open spec fn strictly_sorted(s: Seq<usize>) -> bool {
    forall|i: int, j: int| 0 <= i < j < s.len() ==> s[i] < s[j]
}

/// Membership in a concatenation is membership in either part.
proof fn lemma_concat_contains<T>(a: Seq<T>, b: Seq<T>)
    ensures
        forall|y: T| #[trigger] (a + b).contains(y) <==> a.contains(y) || b.contains(y),
{
    assert forall|y: T| #[trigger] (a + b).contains(y) implies a.contains(y) || b.contains(y) by {
        let k = choose|k: int| 0 <= k < (a + b).len() && (a + b)[k] == y;
        if k < a.len() {
            assert(a[k] == y);
        } else {
            assert(b[k - a.len()] == y);
        }
    }
    assert forall|y: T| a.contains(y) || b.contains(y) implies #[trigger] (a + b).contains(y) by {
        if a.contains(y) {
            let k = choose|k: int| 0 <= k < a.len() && a[k] == y;
            assert((a + b)[k] == y);
        } else {
            let k = choose|k: int| 0 <= k < b.len() && b[k] == y;
            assert((a + b)[k + a.len()] == y);
        }
    }
}

/// Membership after an insertion: the inserted element, or a previous
/// member.
proof fn lemma_insert_contains(s: Seq<usize>, pos: int, x: usize)
    requires
        0 <= pos <= s.len(),
    ensures
        forall|y: usize| #[trigger] s.insert(pos, x).contains(y) <==> (y == x || s.contains(y)),
{
    let t = s.insert(pos, x);
    assert forall|y: usize| #[trigger] t.contains(y) implies (y == x || s.contains(y)) by {
        let k = choose|k: int| 0 <= k < t.len() && t[k] == y;
        if k < pos {
            assert(s[k] == y);
        } else if k > pos {
            assert(s[k - 1] == y);
        }
    }
    assert forall|y: usize| (y == x || s.contains(y)) implies #[trigger] t.contains(y) by {
        if y == x {
            assert(t[pos] == y);
        } else {
            let k = choose|k: int| 0 <= k < s.len() && s[k] == y;
            if k < pos {
                assert(t[k] == y);
            } else {
                assert(t[k + 1] == y);
            }
        }
    }
}

/// Sorts the indices ascending and removes duplicates: the result is
/// strictly increasing and holds exactly the values of the input.
fn sort_dedup(input: &Vec<usize>) -> (r: Vec<usize>)
    ensures
        strictly_sorted(r@),
        forall|y: usize| #[trigger] r@.contains(y) <==> input@.contains(y),
{
    let mut out: Vec<usize> = Vec::new();
    let mut i: usize = 0;
    while i < input.len()
        invariant
            0 <= i <= input@.len(),
            strictly_sorted(out@),
            forall|y: usize| #[trigger] out@.contains(y) <==> input@.subrange(0, i as int).contains(
                y,
            ),
        decreases input@.len() - i,
    {
        let x = input[i];
        let ghost prefix = input@.subrange(0, i as int);
        proof {
            assert(input@.subrange(0, i + 1 as int) == prefix.push(input@[i as int]));
            lemma_concat_contains(prefix, seq![input@[i as int]]);
            assert(prefix.push(input@[i as int]) == prefix + seq![input@[i as int]]);
            assert(seq![input@[i as int]].contains(x)) by {
                assert(seq![input@[i as int]][0] == x);
            }
        }
        let mut pos: usize = 0;
        while pos < out.len() && out[pos] < x
            invariant
                0 <= pos <= out@.len(),
                strictly_sorted(out@),
                forall|m: int| 0 <= m < pos ==> (#[trigger] out@[m]) < x,
            decreases out@.len() - pos,
        {
            pos = pos + 1;
        }
        if pos < out.len() && out[pos] == x {
        } else {
            proof {
                lemma_insert_contains(out@, pos as int, x);
            }
            out.insert(pos, x);
        }
        i = i + 1;
    }
    proof {
        assert(input@.subrange(0, input@.len() as int) == input@);
    }
    out
}

/// Appends every element of `src` to `dst`.
fn append_all(dst: &mut Vec<usize>, src: &Vec<usize>)
    ensures
        final(dst)@ == old(dst)@ + src@,
{
    let mut idx: usize = 0;
    while idx < src.len()
        invariant
            0 <= idx <= src@.len(),
            dst@ == old(dst)@ + src@.subrange(0, idx as int),
        decreases src@.len() - idx,
    {
        dst.push(src[idx]);
        proof {
            assert(old(dst)@ + src@.subrange(0, idx as int + 1) == (old(dst)@ + src@.subrange(
                0,
                idx as int,
            )).push(src@[idx as int]));
        }
        idx = idx + 1;
    }
    proof {
        assert(src@.subrange(0, src@.len() as int) == src@);
    }
}

impl Skeleton {
    /// The propagation step of one triangle: its neighbors with covered
    /// edges suppressed.  For each edge that has a neighbor, the dilated
    /// circumcircle of the triangle walks the boundary arc between the
    /// edge's endpoints; a fully covered arc closes the edge and its
    /// points join the triangle's coverage record, which is stored sorted
    /// and deduplicated.  Fails exactly when the triangle's corners are
    /// collinear.
    pub fn get_non_covered_neighbors(&mut self, ind_triangle: usize, epsilon: crate::Epsilon) -> (r:
        Result<NeighborTriple, SkelError>)
        requires
            old(self).wf(),
            ind_triangle < old(self).t_count(),
            epsilon.wf(),
            old(self).n() < usize::MAX,
        ensures
            final(self).wf(),
            old(self).same_core(*final(self)),
            final(self).final_skeleton == old(self).final_skeleton,
            final(self).covered@.len() == old(self).covered@.len(),
            forall|j: int|
                0 <= j < old(self).t_count() && j != ind_triangle ==> final(self).covered@[j]
                    == old(self).covered@[j],
            final(self).delaunay_neighbors@.len() == old(self).delaunay_neighbors@.len(),
            final(self).skel_circles@.len() == old(self).skel_circles@.len(),
            forall|j: int|
                0 <= j < old(self).t_count() && (#[trigger] old(self).delaunay_neighbors@[j]).is_some()
                    ==> final(self).delaunay_neighbors@[j] == old(self).delaunay_neighbors@[j],
            forall|j: int|
                0 <= j < old(self).t_count() && (#[trigger] old(self).skel_circles@[j]).is_some()
                    ==> final(self).skel_circles@[j] == old(self).skel_circles@[j],
            match r {
                Ok(nei) => {
                    let t = ind_triangle as int;
                    &&& old(self).tri_nondegenerate(t)
                    &&& nei.n0 == non_covered_slot(*old(self), t, 0, epsilon)
                    &&& nei.n1 == non_covered_slot(*old(self), t, 1, epsilon)
                    &&& nei.n2 == non_covered_slot(*old(self), t, 2, epsilon)
                    &&& match final(self).covered@[t] {
                        Some(v) => strictly_sorted(v@) && (forall|y: usize|
                            #[trigger] v@.contains(y) <==> coverage_seq(
                                *old(self),
                                t,
                                epsilon,
                            ).contains(y)),
                        None => false,
                    }
                },
                Err(e) => {
                    &&& e == SkelError::GeometryDegenerate
                    &&& !old(self).tri_nondegenerate(ind_triangle as int)
                    &&& final(self).covered == old(self).covered
                    &&& final(self).skel_circles == old(self).skel_circles
                },
            },
    {
        let t = ind_triangle;
        let all_nei = self.get_neighbors(t);
        let cir = match self.get_circle(t) {
            Ok(c) => c,
            Err(e) => {
                return Err(e);
            },
        };
        let tri = self.delaunay_triangles[t];
        let fuel = self.boundary_points.len() + 1;
        let mut cov: Vec<usize> = Vec::new();
        cov.push(tri.v0);
        cov.push(tri.v1);
        cov.push(tri.v2);
        let ghost base = seq![tri.v0, tri.v1, tri.v2];
        proof {
            assert(cov@ == base);
        }
        let n0 = match all_nei.n0 {
            Some(val) => {
                let w = walk_edge_exec(
                    &self.boundary_points,
                    &self.next_neighbor,
                    &cir,
                    epsilon,
                    tri.v1,
                    tri.v2,
                    tri.v2,
                    fuel,
                );
                if w.0 {
                    append_all(&mut cov, &w.1);
                    None
                } else {
                    Some(val)
                }
            },
            None => None,
        };
        proof {
            assert(cov@ == base + edge_run_or_empty(*old(self), t as int, 0, epsilon));
        }
        let n1 = match all_nei.n1 {
            Some(val) => {
                let w = walk_edge_exec(
                    &self.boundary_points,
                    &self.next_neighbor,
                    &cir,
                    epsilon,
                    tri.v2,
                    tri.v0,
                    tri.v0,
                    fuel,
                );
                if w.0 {
                    append_all(&mut cov, &w.1);
                    None
                } else {
                    Some(val)
                }
            },
            None => None,
        };
        proof {
            assert(cov@ == base + edge_run_or_empty(*old(self), t as int, 0, epsilon)
                + edge_run_or_empty(*old(self), t as int, 1, epsilon));
        }
        let n2 = match all_nei.n2 {
            Some(val) => {
                let w = walk_edge_exec(
                    &self.boundary_points,
                    &self.next_neighbor,
                    &cir,
                    epsilon,
                    tri.v0,
                    tri.v1,
                    tri.v1,
                    fuel,
                );
                if w.0 {
                    append_all(&mut cov, &w.1);
                    None
                } else {
                    Some(val)
                }
            },
            None => None,
        };
        proof {
            assert(cov@ == coverage_seq(*old(self), t as int, epsilon));
        }
        let sorted = sort_dedup(&cov);
        self.covered.set(t, Some(sorted));
        Ok(NeighborTriple { n0, n1, n2 })
    }
}

/// The coverage walk of one edge, executed with explicit fuel; mirrors
/// `walk_edge` step for step.
fn walk_edge_exec(
    pts: &Vec<Point2>,
    nxt: &Vec<usize>,
    c: &Circle,
    eps: crate::Epsilon,
    i1: usize,
    i2: usize,
    icur: usize,
    fuel: usize,
) -> (r: (bool, Vec<usize>))
    requires
        pts@.len() == nxt@.len(),
        forall|i: int| 0 <= i < nxt@.len() ==> (#[trigger] nxt@[i]) < nxt@.len(),
        forall|i: int| 0 <= i < pts@.len() ==> (#[trigger] pts@[i]).in_bounds(),
        icur < pts@.len(),
        c.wf(),
        c.bounded(),
        eps.wf(),
    ensures
        r.0 == walk_edge(pts@, nxt@, *c, eps, i1, i2, icur, fuel as nat).0,
        r.1@ == walk_edge(pts@, nxt@, *c, eps, i1, i2, icur, fuel as nat).1,
    decreases fuel,
{
    if fuel == 0 {
        return (false, Vec::new());
    }
    let nx = nxt[icur];
    if nx == i1 {
        let mut v: Vec<usize> = Vec::new();
        v.push(icur);
        return (true, v);
    }
    if !geometry_operations::point_within_dilated(c, &pts[icur], eps) {
        return (false, Vec::new());
    }
    if nx == i2 {
        return (false, Vec::new());
    }
    let rec = walk_edge_exec(pts, nxt, c, eps, i1, i2, nx, fuel - 1);
    let mut v = rec.1;
    v.insert(0, icur);
    proof {
        assert(v@ == seq![icur] + rec.1@);
    }
    (rec.0, v)
}

/// The squared distance from a point to the corner, computed exactly.
fn point_corner_dist2(p: &Point2, cx: i64, cy: i64) -> (r: i128)
    requires
        p.in_bounds(),
        -crate::COORD_LIMIT <= cx <= crate::COORD_LIMIT,
        -crate::COORD_LIMIT <= cy <= crate::COORD_LIMIT,
    ensures
        r == dist2_to(*p, cx as int, cy as int),
{
    let dx: i128 = p.x as i128 - cx as i128;
    let dy: i128 = p.y as i128 - cy as i128;
    proof {
        crate::arith::lemma_sq_bounds(dx as int, 0x8000);
        crate::arith::lemma_sq_bounds(dy as int, 0x8000);
    }
    dx * dx + dy * dy
}

/// The successor and predecessor maps close over `n` points: equal
/// lengths, in-range entries, and the maps are mutually inverse — the
/// points decompose into disjoint simple cycles.
pub open spec fn maps_closed(n: int, nxt: Seq<usize>, prv: Seq<usize>) -> bool {
    &&& nxt.len() == n
    &&& prv.len() == n
    &&& forall|i: int| 0 <= i < n ==> (#[trigger] nxt[i]) < n
    &&& forall|i: int| 0 <= i < n ==> (#[trigger] prv[i]) < n
    &&& forall|i: int| 0 <= i < n ==> prv[#[trigger] nxt[i] as int] == i
    &&& forall|i: int| 0 <= i < n ==> nxt[#[trigger] prv[i] as int] == i
}

/// Validates that the successor and predecessor maps are in-range and
/// mutually inverse over the point arena.
pub(crate) fn check_cycles(points: &Vec<Point2>, nxt: &Vec<usize>, prv: &Vec<usize>) -> (r: bool)
    ensures
        r <==> maps_closed(points@.len() as int, nxt@, prv@),
{
    let n = points.len();
    if nxt.len() != n || prv.len() != n {
        return false;
    }
    let mut i: usize = 0;
    while i < n
        invariant
            0 <= i <= n,
            n == points@.len(),
            nxt@.len() == n,
            prv@.len() == n,
            forall|m: int| 0 <= m < i ==> (#[trigger] nxt@[m]) < n,
            forall|m: int| 0 <= m < i ==> (#[trigger] prv@[m]) < n,
            forall|m: int| 0 <= m < i ==> prv@[#[trigger] nxt@[m] as int] == m,
            forall|m: int| 0 <= m < i ==> nxt@[#[trigger] prv@[m] as int] == m,
        decreases n - i,
    {
        let nx = nxt[i];
        let pv = prv[i];
        if nx >= n || pv >= n {
            return false;
        }
        if prv[nx] != i || nxt[pv] != i {
            return false;
        }
        i = i + 1;
    }
    true
}

/// Copies a vector of plain values element by element.
pub(crate) fn copy_vec<T: Copy>(src: &Vec<T>) -> (r: Vec<T>)
    ensures
        r@ == src@,
{
    let mut out: Vec<T> = Vec::new();
    let mut i: usize = 0;
    while i < src.len()
        invariant
            0 <= i <= src@.len(),
            out@ == src@.subrange(0, i as int),
        decreases src@.len() - i,
    {
        out.push(src[i]);
        proof {
            assert(out@ == src@.subrange(0, i + 1 as int));
        }
        i = i + 1;
    }
    proof {
        assert(src@.subrange(0, src@.len() as int) == src@);
    }
    out
}


/// A coverage walk that succeeds under one tolerance succeeds under any
/// larger tolerance: every visited point stays strictly within the wider
/// dilation, and the walk visits the same points.
proof fn lemma_walk_covered_monotone(
    pts: Seq<Point2>,
    nxt: Seq<usize>,
    c: Circle,
    e1: crate::Epsilon,
    e2: crate::Epsilon,
    i1: usize,
    i2: usize,
    icur: usize,
    fuel: nat,
)
    requires
        c.wf(),
        e1.wf(),
        e2.wf(),
        e1.num * e2.den <= e2.num * e1.den,
        walk_edge(pts, nxt, c, e1, i1, i2, icur, fuel).0,
    ensures
        walk_edge(pts, nxt, c, e2, i1, i2, icur, fuel).0,
    decreases fuel,
{
    if fuel > 0 {
        if nxt[icur as int] == i1 {
        } else {
            geometry_operations::lemma_point_within_monotone(c, pts[icur as int], e1, e2);
            lemma_walk_covered_monotone(
                pts,
                nxt,
                c,
                e1,
                e2,
                i1,
                i2,
                nxt[icur as int],
                (fuel - 1) as nat,
            );
        }
    }
}

/// Increasing the tolerance never uncovers an edge: an edge judged
/// covered at one epsilon is judged covered at every larger epsilon.
pub proof fn lemma_edge_covered_monotone(
    s: Skeleton,
    t: int,
    k: int,
    e1: crate::Epsilon,
    e2: crate::Epsilon,
)
    requires
        s.wf(),
        0 <= t < s.t_count(),
        s.tri_nondegenerate(t),
        e1.wf(),
        e2.wf(),
        e1.num * e2.den <= e2.num * e1.den,
        edge_covered(s, t, k, e1),
    ensures
        edge_covered(s, t, k, e2),
{
    geometry_operations::lemma_circle_spec_equidistant(
        s.tri_pt(t, 0),
        s.tri_pt(t, 1),
        s.tri_pt(t, 2),
    );
    let tri = s.delaunay_triangles@[t];
    lemma_walk_covered_monotone(
        s.boundary_points@,
        s.next_neighbor@,
        s.circle_of(t),
        e1,
        e2,
        tri.vert(k + 1),
        tri.vert(k + 2),
        tri.vert(k + 2),
        (s.n() + 1) as nat,
    );
}


/// A path that exists at the wider tolerance exists at the narrower one:
/// widening only removes propagation steps.  Every triangle the wider
/// tolerance reaches must have a circumcircle — exactly what a
/// successful propagation at that tolerance certifies of its newly final
/// set.
proof fn lemma_fresh_reach_monotone(
    s: Skeleton,
    e1: crate::Epsilon,
    e2: crate::Epsilon,
    flags: Seq<bool>,
    from: int,
    to: int,
    n: nat,
)
    requires
        s.wf(),
        e1.wf(),
        e2.wf(),
        e1.num * e2.den <= e2.num * e1.den,
        forall|t: int|
            0 <= t < s.t_count() && #[trigger] fresh_reachable(s, e2, flags, from, t)
                ==> s.tri_nondegenerate(t),
        fresh_reach(s, e2, flags, from, to, n),
    ensures
        fresh_reach(s, e1, flags, from, to, n),
    decreases n,
{
    if from == to {
    } else {
        let mid = choose|mid: usize|
            #[trigger] step_to(s, e2, from, mid) && fresh_reach(
                s,
                e2,
                flags,
                mid as int,
                to,
                (n - 1) as nat,
            );
        assert(s.tri_nondegenerate(from)) by {
            assert(fresh_reach(s, e2, flags, from, from, 0nat));
            assert(fresh_reachable(s, e2, flags, from, from));
        }
        let k = choose|k: int| 0 <= k < 3 && #[trigger] non_covered_slot(s, from, k, e2) == Some(
            mid,
        );
        lemma_non_covered_slot_monotone(s, from, k, e1, e2);
        assert(non_covered_slot(s, from, k, e1) == Some(mid));
        assert(step_to(s, e1, from, mid));
        assert forall|t: int|
            0 <= t < s.t_count() && #[trigger] fresh_reachable(s, e2, flags, mid as int, t)
            implies s.tri_nondegenerate(t) by {
            let n2 = choose|n2: nat| fresh_reach(s, e2, flags, mid as int, t, n2);
            assert(fresh_reach(s, e2, flags, from, t, (n2 + 1) as nat));
            assert(fresh_reachable(s, e2, flags, from, t));
        }
        lemma_fresh_reach_monotone(s, e1, e2, flags, mid as int, to, (n - 1) as nat);
    }
}

/// Increasing epsilon never increases the final node count for a fixed
/// loop: two propagations from one seed over one starting state, the
/// second with a wider tolerance, end with final sets related by
/// inclusion — the wider run's count is no larger.  The hypotheses are
/// exactly what two successful `propagate_from` calls certify: each final
/// set is the starting set united with the reachable set of its
/// tolerance, and every triangle the wider run newly finalized — hence
/// everything it reached — has a circumcircle.
pub proof fn lemma_final_count_monotone(
    s: Skeleton,
    e1: crate::Epsilon,
    e2: crate::Epsilon,
    flags: Seq<bool>,
    seed: int,
    fin1: Seq<bool>,
    fin2: Seq<bool>,
)
    requires
        s.wf(),
        e1.wf(),
        e2.wf(),
        e1.num * e2.den <= e2.num * e1.den,
        forall|t: int|
            0 <= t < s.t_count() && #[trigger] fresh_reachable(s, e2, flags, seed, t)
                ==> s.tri_nondegenerate(t),
        fin1.len() == s.t_count(),
        fin2.len() == s.t_count(),
        forall|t: int|
            0 <= t < s.t_count() ==> ((#[trigger] fin1[t]) <==> (flags[t] || fresh_reachable(
                s,
                e1,
                flags,
                seed,
                t,
            ))),
        forall|t: int|
            0 <= t < s.t_count() ==> ((#[trigger] fin2[t]) <==> (flags[t] || fresh_reachable(
                s,
                e2,
                flags,
                seed,
                t,
            ))),
    ensures
        forall|t: int| 0 <= t < s.t_count() && (#[trigger] fin2[t]) ==> fin1[t],
        unfinal_set(fin1).len() <= unfinal_set(fin2).len(),
        Set::new(|t: int| 0 <= t < s.t_count() && fin2[t]).len() <= Set::new(
            |t: int| 0 <= t < s.t_count() && fin1[t],
        ).len(),
{
    assert forall|t: int| 0 <= t < s.t_count() && (#[trigger] fin2[t]) implies fin1[t] by {
        if !flags[t] {
            let n = choose|n: nat| fresh_reach(s, e2, flags, seed, t, n);
            lemma_fresh_reach_monotone(s, e1, e2, flags, seed, t, n);
        }
    }
    let set1 = Set::new(|t: int| 0 <= t < s.t_count() && fin1[t]);
    let set2 = Set::new(|t: int| 0 <= t < s.t_count() && fin2[t]);
    vstd::set_lib::lemma_int_range(0, s.t_count());
    vstd::set_lib::lemma_len_subset(set1, vstd::set_lib::set_int_range(0, s.t_count()));
    assert(set2.subset_of(set1));
    vstd::set_lib::lemma_len_subset(set2, set1);
    assert(unfinal_set(fin1).subset_of(unfinal_set(fin2)));
    lemma_unfinal_finite(fin2);
    vstd::set_lib::lemma_len_subset(unfinal_set(fin1), unfinal_set(fin2));
}

/// Widening the tolerance only shrinks the propagation relation: every
/// neighbor the wider tolerance keeps, the narrower one keeps too.  The
/// reachable set — and with it the final node count of a fixed loop —
/// can therefore only shrink as epsilon grows.
pub proof fn lemma_non_covered_slot_monotone(
    s: Skeleton,
    t: int,
    k: int,
    e1: crate::Epsilon,
    e2: crate::Epsilon,
)
    requires
        s.wf(),
        0 <= t < s.t_count(),
        s.tri_nondegenerate(t),
        e1.wf(),
        e2.wf(),
        e1.num * e2.den <= e2.num * e1.den,
    ensures
        non_covered_slot(s, t, k, e2).is_some() ==> non_covered_slot(s, t, k, e2)
            == non_covered_slot(s, t, k, e1),
{
    if non_covered_slot(s, t, k, e2).is_some() {
        if edge_covered(s, t, k, e1) {
            lemma_edge_covered_monotone(s, t, k, e1, e2);
        }
    }
}

} // verus!
