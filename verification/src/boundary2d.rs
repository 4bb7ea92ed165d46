//! Boundary contour extraction from a labeled raster.
//!
//! A labeled raster (0 background, a positive id per connected component)
//! is scanned vertex by vertex; each 2x2 pixel neighborhood emits the
//! boundary segments crossing it, keyed per component, on fixed side
//! midpoints.  The segments of one component close into one or more
//! ordered point loops: a point list plus successor and predecessor maps
//! that are mutually inverse, so the points decompose into disjoint simple
//! cycles.
//!
//! Coordinates are stored doubled, so the half-integer side midpoints are
//! exact integers: the midpoint of the side left of vertex `(r, c)` is
//! `(2c - 1, 2r)`.

use vstd::prelude::*;

use crate::geometry_objects::Point2;
use crate::SkelError;

verus! {

/// Index `i` appears somewhere in the extracted loops.
pub open spec fn appears(loops: Seq<Vec<usize>>, i: usize) -> bool {
    exists|li: int, k: int|
        0 <= li < loops.len() && 0 <= k < loops[li]@.len() && (#[trigger] loops[li]@[k]) == i
}

/// The index sequences decompose boundary `b` into its loops: each one
/// is nonempty, follows the successor map and closes back on its first
/// point after exactly its own length, its members are distinct and in
/// range, and every point index of `b` appears somewhere.
pub open spec fn loops_decomposition(b: Boundary2d, loops: Seq<Vec<usize>>) -> bool {
    &&& forall|li: int| 0 <= li < loops.len() ==> (#[trigger] loops[li])@.len() > 0
    &&& forall|li: int, k: int|
        0 <= li < loops.len() && 0 <= k < loops[li]@.len() ==> (#[trigger] loops[li]@[k]) < b.n()
    &&& forall|li: int, k: int|
        0 <= li < loops.len() && 0 <= k < loops[li]@.len()
            ==> b.next_neighbor@[(#[trigger] loops[li]@[k]) as int] == loops[li]@[(k + 1) % (
        loops[li]@.len() as int)]
    &&& forall|li: int, k1: int, k2: int|
        0 <= li < loops.len() && 0 <= k1 < k2 < loops[li]@.len() ==> (#[trigger] loops[li]@[k1])
            != (#[trigger] loops[li]@[k2])
    &&& forall|i: usize| i < b.n() ==> #[trigger] appears(loops, i)
    &&& forall|li: int, k: int|
        0 <= li < loops.len() && 0 <= k < loops[li]@.len() ==> loops[li]@[0]
            <= (#[trigger] loops[li]@[k])
    &&& forall|li1: int, li2: int|
        0 <= li1 < li2 < loops.len() ==> (#[trigger] loops[li1]@[0]) < (#[trigger] loops[li2]@[0])
    &&& forall|li1: int, li2: int, k1: int, k2: int|
        0 <= li1 < li2 < loops.len() && 0 <= k1 < loops[li1]@.len() && 0 <= k2 < loops[li2]@.len()
            ==> (#[trigger] loops[li1]@[k1]) != (#[trigger] loops[li2]@[k2])
}

/// One extracted boundary: an ordered point set whose successor and
/// predecessor maps close into disjoint simple cycles (one per loop).
pub struct Boundary2d {
    pub points: Vec<Point2>,
    pub next_neighbor: Vec<usize>,
    pub prev_neighbor: Vec<usize>,
}

impl Boundary2d {
    /// The number of boundary points.
    pub open spec fn n(self) -> int {
        self.points@.len() as int
    }

    /// The loop structure is well formed: equal lengths, in-bounds
    /// coordinates, and mutually inverse successor and predecessor maps.
    pub open spec fn wf(self) -> bool {
        &&& self.next_neighbor@.len() == self.n()
        &&& self.prev_neighbor@.len() == self.n()
        &&& forall|i: int| 0 <= i < self.n() ==> (#[trigger] self.points@[i]).in_bounds()
        &&& forall|i: int| 0 <= i < self.n() ==> (#[trigger] self.next_neighbor@[i]) < self.n()
        &&& forall|i: int| 0 <= i < self.n() ==> (#[trigger] self.prev_neighbor@[i]) < self.n()
        &&& forall|i: int|
            0 <= i < self.n() ==> self.prev_neighbor@[#[trigger] self.next_neighbor@[i] as int]
                == i
        &&& forall|i: int|
            0 <= i < self.n() ==> self.next_neighbor@[#[trigger] self.prev_neighbor@[i] as int]
                == i
    }

    /// Extracts the boundary loops of a binary mask by marching squares:
    /// the mask is labeled into 8-connected components, then every grid
    /// vertex classifies its 2x2 pixel neighborhood and emits the
    /// boundary segments crossing it, keyed per component.
    pub fn from_marching_squares(mask: &Vec<Vec<u8>>) -> (res: Result<Vec<Boundary2d>, SkelError>)
        requires
            mask@.len() <= 4000,
            forall|i: int| 0 <= i < mask@.len() ==> (#[trigger] mask@[i])@.len() == mask_width(
                mask@,
            ),
            mask_width(mask@) <= 4000,
            mask_has_background(mask@),
        ensures
            match res {
                Ok(v) => {
                    &&& forall|li: int| 0 <= li < v@.len() ==> (#[trigger] v@[li]).wf()
                    &&& forall|li: int, k: int|
                        0 <= li < v@.len() && 0 <= k < v@[li].points@.len() ==> side_midpoint(
                            #[trigger] v@[li].points@[k],
                            mask@.len() as int,
                            mask_width(mask@),
                        )
                    &&& (v@.len() > 0 <==> mask_has_mixed_vertex(
                        mask@,
                        mask@.len() as int,
                        mask_width(mask@),
                    ))
                    &&& forall|li: int| 0 <= li < v@.len() ==> (#[trigger] v@[li]).n() > 0
                },
                Err(e) => e == SkelError::IndexInconsistency,
            },
            !mask_has_mixed_vertex(mask@, mask@.len() as int, mask_width(mask@)) ==> res.is_ok(),
    {
        let labels = label_rows(mask, Connectivity::Eight);
        let res = Self::from_labels(&labels);
        proof {
            lemma_mask_mixed_equiv(mask@, labels@, mask@.len() as int, mask_width(mask@));
        }
        res
    }

    /// The marching squares scan over an already labeled raster: every
    /// grid vertex classifies its 2x2 pixel neighborhood and emits the 1
    /// or 2 boundary segments crossing that cell on fixed side midpoints,
    /// keyed per connected component.  The ambiguous two-opposite-corner
    /// configuration is deliberately resolved as two independent
    /// single-corner connections, never as one pass-through diagonal.
    /// Each component's segments are then closed into loops; segments
    /// that fail to close are a fatal inconsistency.
    pub fn from_labels(labels: &Vec<Vec<u32>>) -> (res: Result<Vec<Boundary2d>, SkelError>)
        requires
            raster_wf(labels@, labels@.len() as int, raster_width(labels@)),
        ensures
            match res {
                Ok(v) => {
                    &&& forall|li: int| 0 <= li < v@.len() ==> (#[trigger] v@[li]).wf()
                    &&& forall|li: int, k: int|
                        0 <= li < v@.len() && 0 <= k < v@[li].points@.len() ==> side_midpoint(
                            #[trigger] v@[li].points@[k],
                            labels@.len() as int,
                            raster_width(labels@),
                        )
                    &&& (v@.len() > 0 <==> has_mixed_vertex(
                        labels@,
                        labels@.len() as int,
                        raster_width(labels@),
                    ))
                    &&& forall|li: int| 0 <= li < v@.len() ==> (#[trigger] v@[li]).n() > 0
                    &&& exists|ls: Seq<u32>|
                        #[trigger] component_label_census(
                            labels@,
                            labels@.len() as int,
                            raster_width(labels@),
                            ls,
                            v@.len() as int,
                        )
                },
                Err(e) => e == SkelError::IndexInconsistency,
            },
            !has_mixed_vertex(labels@, labels@.len() as int, raster_width(labels@))
                ==> res.is_ok(),
    {
        let h = labels.len();
        let w = if h > 0 {
            labels[0].len()
        } else {
            0
        };
        let lin: i64 = 2 * (w as i64 + 1);
        let mut comps: Vec<CompData> = Vec::new();
        let mut comp_labels: Vec<u32> = Vec::new();
        let mut vr: usize = 0;
        while vr <= h
            invariant
                raster_wf(labels@, h as int, w as int),
                h == labels@.len(),
                w as int == raster_width(labels@),
                lin == 2 * (w as i64 + 1),
                0 <= vr <= h + 1,
                comps@.len() == comp_labels@.len(),
                comps_wf(comps@),
                comps_shape(comps@, h as int, w as int),
                comps_nonempty(comps@),
                (exists|r: int, c: int|
                    0 <= r < vr && 0 <= c <= w && #[trigger] mixed_at(
                        labels@,
                        h as int,
                        w as int,
                        r,
                        c,
                    )) ==> comps@.len() > 0,
                comps@.len() > 0 ==> (exists|r: int, c: int|
                    0 <= r < vr && 0 <= c <= w && #[trigger] mixed_at(
                        labels@,
                        h as int,
                        w as int,
                        r,
                        c,
                    )),
                forall|m1: int, m2: int|
                    0 <= m1 < m2 < comp_labels@.len() ==> (#[trigger] comp_labels@[m1]) != (
                    #[trigger] comp_labels@[m2]),
                !comp_labels@.contains(0u32),
                labels_sound_upto(labels@, h as int, w as int, comp_labels@, vr * (w + 2)),
                labels_complete_upto(labels@, h as int, w as int, comp_labels@, vr * (w + 2)),
            decreases h + 1 - vr,
        {
            let mut vc: usize = 0;
            while vc <= w
                invariant
                    raster_wf(labels@, h as int, w as int),
                    h == labels@.len(),
                    w as int == raster_width(labels@),
                    lin == 2 * (w as i64 + 1),
                    vr <= h,
                    0 <= vc <= w + 1,
                    comps@.len() == comp_labels@.len(),
                    comps_wf(comps@),
                    comps_shape(comps@, h as int, w as int),
                    comps_nonempty(comps@),
                    (exists|r: int, c: int|
                        0 <= r <= h && 0 <= c <= w && (r < vr || (r == vr && c < vc))
                            && #[trigger] mixed_at(labels@, h as int, w as int, r, c))
                        ==> comps@.len() > 0,
                    comps@.len() > 0 ==> (exists|r: int, c: int|
                        0 <= r <= h && 0 <= c <= w && (r < vr || (r == vr && c < vc))
                            && #[trigger] mixed_at(labels@, h as int, w as int, r, c)),
                    forall|m1: int, m2: int|
                        0 <= m1 < m2 < comp_labels@.len() ==> (#[trigger] comp_labels@[m1]) != (
                        #[trigger] comp_labels@[m2]),
                    !comp_labels@.contains(0u32),
                    labels_sound_upto(
                        labels@,
                        h as int,
                        w as int,
                        comp_labels@,
                        vr * (w + 2) + vc,
                    ),
                    labels_complete_upto(
                        labels@,
                        h as int,
                        w as int,
                        comp_labels@,
                        vr * (w + 2) + vc,
                    ),
                decreases w + 1 - vc,
            {
                let val00: u32 = if vr > 0 && vc > 0 {
                    labels[vr - 1][vc - 1]
                } else {
                    0
                };
                let val01: u32 = if vr < h && vc > 0 {
                    labels[vr][vc - 1]
                } else {
                    0
                };
                let val10: u32 = if vr > 0 && vc < w {
                    labels[vr - 1][vc]
                } else {
                    0
                };
                let val11: u32 = if vr < h && vc < w {
                    labels[vr][vc]
                } else {
                    0
                };
                let ghost comps_at_vertex = comps@.len();
                let ghost labels_at_vertex = comp_labels@;
                proof {
                    assert(val00 == lab(labels@, h as int, w as int, vr as int - 1, vc as int - 1));
                    assert(val01 == lab(labels@, h as int, w as int, vr as int, vc as int - 1));
                    assert(val10 == lab(labels@, h as int, w as int, vr as int - 1, vc as int));
                    assert(val11 == lab(labels@, h as int, w as int, vr as int, vc as int));
                }
                let v00 = val00 != 0;
                let v01 = val01 != 0;
                let v10 = val10 != 0;
                let v11 = val11 != 0;
                if v00 && !v10 && !v11 && !v01 {
                    let s0 = side(vr, vc, lin, 1);
                    let s1 = side(vr, vc, lin, 0);
                    insert_and_connect(&mut comps, &mut comp_labels, val00, s0.0, s0.1, s1.0, s1.1, Ghost(h as int), Ghost(w as int));
                }
                if !v00 && v10 && !v11 && !v01 {
                    let s0 = side(vr, vc, lin, 2);
                    let s1 = side(vr, vc, lin, 1);
                    insert_and_connect(&mut comps, &mut comp_labels, val10, s0.0, s0.1, s1.0, s1.1, Ghost(h as int), Ghost(w as int));
                }
                if !v00 && !v10 && v11 && !v01 {
                    let s0 = side(vr, vc, lin, 3);
                    let s1 = side(vr, vc, lin, 2);
                    insert_and_connect(&mut comps, &mut comp_labels, val11, s0.0, s0.1, s1.0, s1.1, Ghost(h as int), Ghost(w as int));
                }
                if !v00 && !v10 && !v11 && v01 {
                    let s0 = side(vr, vc, lin, 0);
                    let s1 = side(vr, vc, lin, 3);
                    insert_and_connect(&mut comps, &mut comp_labels, val01, s0.0, s0.1, s1.0, s1.1, Ghost(h as int), Ghost(w as int));
                }
                if v00 && v10 && !v11 && !v01 {
                    let s0 = side(vr, vc, lin, 2);
                    let s1 = side(vr, vc, lin, 0);
                    insert_and_connect(&mut comps, &mut comp_labels, val00, s0.0, s0.1, s1.0, s1.1, Ghost(h as int), Ghost(w as int));
                }
                if !v00 && v10 && v11 && !v01 {
                    let s0 = side(vr, vc, lin, 3);
                    let s1 = side(vr, vc, lin, 1);
                    insert_and_connect(&mut comps, &mut comp_labels, val10, s0.0, s0.1, s1.0, s1.1, Ghost(h as int), Ghost(w as int));
                }
                if !v00 && !v10 && v11 && v01 {
                    let s0 = side(vr, vc, lin, 0);
                    let s1 = side(vr, vc, lin, 2);
                    insert_and_connect(&mut comps, &mut comp_labels, val11, s0.0, s0.1, s1.0, s1.1, Ghost(h as int), Ghost(w as int));
                }
                if v00 && !v10 && !v11 && v01 {
                    let s0 = side(vr, vc, lin, 1);
                    let s1 = side(vr, vc, lin, 3);
                    insert_and_connect(&mut comps, &mut comp_labels, val01, s0.0, s0.1, s1.0, s1.1, Ghost(h as int), Ghost(w as int));
                }
                if v00 && v10 && v11 && !v01 {
                    let s0 = side(vr, vc, lin, 3);
                    let s1 = side(vr, vc, lin, 0);
                    insert_and_connect(&mut comps, &mut comp_labels, val00, s0.0, s0.1, s1.0, s1.1, Ghost(h as int), Ghost(w as int));
                }
                if !v00 && v10 && v11 && v01 {
                    let s0 = side(vr, vc, lin, 0);
                    let s1 = side(vr, vc, lin, 1);
                    insert_and_connect(&mut comps, &mut comp_labels, val10, s0.0, s0.1, s1.0, s1.1, Ghost(h as int), Ghost(w as int));
                }
                if v00 && !v10 && v11 && v01 {
                    let s0 = side(vr, vc, lin, 1);
                    let s1 = side(vr, vc, lin, 2);
                    insert_and_connect(&mut comps, &mut comp_labels, val11, s0.0, s0.1, s1.0, s1.1, Ghost(h as int), Ghost(w as int));
                }
                if v00 && v10 && !v11 && v01 {
                    let s0 = side(vr, vc, lin, 2);
                    let s1 = side(vr, vc, lin, 3);
                    insert_and_connect(&mut comps, &mut comp_labels, val01, s0.0, s0.1, s1.0, s1.1, Ghost(h as int), Ghost(w as int));
                }
                if v00 && !v10 && v11 && !v01 {
                    let s0 = side(vr, vc, lin, 3);
                    let s1 = side(vr, vc, lin, 0);
                    insert_and_connect(&mut comps, &mut comp_labels, val00, s0.0, s0.1, s1.0, s1.1, Ghost(h as int), Ghost(w as int));
                    let s2 = side(vr, vc, lin, 1);
                    let s3 = side(vr, vc, lin, 2);
                    insert_and_connect(&mut comps, &mut comp_labels, val00, s2.0, s2.1, s3.0, s3.1, Ghost(h as int), Ghost(w as int));
                }
                if !v00 && v10 && !v11 && v01 {
                    let s0 = side(vr, vc, lin, 0);
                    let s1 = side(vr, vc, lin, 1);
                    insert_and_connect(&mut comps, &mut comp_labels, val10, s0.0, s0.1, s1.0, s1.1, Ghost(h as int), Ghost(w as int));
                    let s2 = side(vr, vc, lin, 2);
                    let s3 = side(vr, vc, lin, 3);
                    insert_and_connect(&mut comps, &mut comp_labels, val10, s2.0, s2.1, s3.0, s3.1, Ghost(h as int), Ghost(w as int));
                }
                proof {
                    if mixed_at(labels@, h as int, w as int, vr as int, vc as int) {
                        assert(comps@.len() > 0);
                    }
                    if comps@.len() > comps_at_vertex {
                        assert(mixed_at(labels@, h as int, w as int, vr as int, vc as int));
                    }
                    let ghost p0 = (vr * (w + 2) + vc) as int;
                    assert(vertex_before(vr as int, vc as int, w as int, p0 + 1));
                    assert forall|m: int|
                        0 <= m < comp_labels@.len() implies #[trigger] label_emitted_before(
                        labels@,
                        h as int,
                        w as int,
                        comp_labels@[m],
                        p0 + 1,
                    ) by {
                        let l = comp_labels@[m];
                        if labels_at_vertex.contains(l) {
                            let m0 = choose|m0: int|
                                0 <= m0 < labels_at_vertex.len() && labels_at_vertex[m0] == l;
                            assert(label_emitted_before(labels@, h as int, w as int, l, p0));
                            lemma_emitted_before_mono(labels@, h as int, w as int, l, p0, p0 + 1);
                        } else {
                            assert(comp_labels@.contains(l)) by {
                                assert(comp_labels@[m] == l);
                            }
                            assert(emits_label_at(
                                labels@,
                                h as int,
                                w as int,
                                vr as int,
                                vc as int,
                                l,
                            ));
                        }
                    }
                    assert forall|r: int, c: int, l: u32|
                        0 <= r <= h && 0 <= c <= w && vertex_before(r, c, w as int, p0 + 1)
                            && #[trigger] emits_label_at(labels@, h as int, w as int, r, c, l)
                        implies comp_labels@.contains(l) by {
                        if vertex_before(r, c, w as int, p0) {
                            assert(labels_at_vertex.contains(l));
                            assert(comp_labels@.contains(l));
                        } else {
                            assert(r * (w + 2) + c == vr * (w + 2) + vc);
                            lemma_vertex_pos_unique(r, c, vr as int, vc as int, w as int);
                            assert(comp_labels@.contains(l));
                        }
                    }
                }
                vc = vc + 1;
            }
            proof {
                assert((vr + 1) * (w + 2) == vr * (w + 2) + (w + 2)) by (nonlinear_arith);
                lemma_sound_upto_mono(
                    labels@,
                    h as int,
                    w as int,
                    comp_labels@,
                    vr * (w + 2) + (w + 1),
                    (vr + 1) * (w + 2),
                );
                assert forall|r: int, c: int, l: u32|
                    0 <= r <= h && 0 <= c <= w && vertex_before(r, c, w as int, ((vr + 1) * (w
                        + 2)) as int) && #[trigger] emits_label_at(labels@, h as int, w as int, r, c, l)
                    implies comp_labels@.contains(l) by {
                    if r <= vr as int - 1 {
                        assert(r * (w + 2) + c < vr * (w + 2) + (w + 1)) by (nonlinear_arith)
                            requires
                                r <= vr - 1 && 0 <= c <= w && w >= 0,
                        ;
                    } else {
                        assert(!(r > vr)) by {
                            if r > vr {
                                assert(r * (w + 2) + c >= (vr + 1) * (w + 2)) by (nonlinear_arith)
                                    requires
                                        r >= vr + 1 && 0 <= c && w >= 0,
                                ;
                            }
                        }
                        assert(r == vr);
                        assert(r * (w + 2) + c < r * (w + 2) + (w + 1));
                    }
                    assert(vertex_before(r, c, w as int, (vr * (w + 2) + (w + 1)) as int));
                }
            }
            vr = vr + 1;
        }
        proof {
            assert forall|m: int|
                0 <= m < comp_labels@.len() implies #[trigger] label_emitted(
                labels@,
                h as int,
                w as int,
                comp_labels@[m],
            ) by {
                assert(label_emitted_before(
                    labels@,
                    h as int,
                    w as int,
                    comp_labels@[m],
                    ((h + 1) * (w + 2)) as int,
                ));
                let l = comp_labels@[m];
                let (r0, c0): (int, int) = choose|r0: int, c0: int|
                    0 <= r0 <= h && 0 <= c0 <= w && vertex_before(
                        r0,
                        c0,
                        w as int,
                        ((h + 1) * (w + 2)) as int,
                    ) && #[trigger] emits_label_at(labels@, h as int, w as int, r0, c0, l);
                assert(emits_label_at(labels@, h as int, w as int, r0, c0, l));
            }
            assert forall|l: u32|
                #[trigger] label_emitted(labels@, h as int, w as int, l)
                implies comp_labels@.contains(l) by {
                let (r0, c0): (int, int) = choose|r0: int, c0: int|
                    0 <= r0 <= h && 0 <= c0 <= w && #[trigger] emits_label_at(
                        labels@,
                        h as int,
                        w as int,
                        r0,
                        c0,
                        l,
                    );
                assert(r0 * (w + 2) + c0 < (h + 1) * (w + 2)) by (nonlinear_arith)
                    requires
                        0 <= r0 <= h && 0 <= c0 <= w && w >= 0,
                ;
                assert(vertex_before(r0, c0, w as int, ((h + 1) * (w + 2)) as int));
            }
        }
        let mut out: Vec<Boundary2d> = Vec::new();
        let mut ci: usize = 0;
        while ci < comps.len()
            invariant
                0 <= ci <= comps@.len(),
                comps@.len() == comp_labels@.len(),
                !comp_labels@.contains(0u32),
                forall|m1: int, m2: int|
                    0 <= m1 < m2 < comp_labels@.len() ==> (#[trigger] comp_labels@[m1]) != (
                    #[trigger] comp_labels@[m2]),
                forall|m: int|
                    0 <= m < comp_labels@.len() ==> #[trigger] label_emitted(
                        labels@,
                        h as int,
                        w as int,
                        comp_labels@[m],
                    ),
                forall|l: u32|
                    #[trigger] label_emitted(labels@, h as int, w as int, l)
                        ==> comp_labels@.contains(l),
                comps_wf(comps@),
                comps_shape(comps@, h as int, w as int),
                comps_nonempty(comps@),
                comps@.len() > 0 ==> has_mixed_vertex(labels@, h as int, w as int),
                h == labels@.len(),
                w as int == raster_width(labels@),
                out@.len() == ci,
                forall|li: int| 0 <= li < out@.len() ==> (#[trigger] out@[li]).wf(),
                forall|li: int| 0 <= li < out@.len() ==> (#[trigger] out@[li]).n() > 0,
                forall|li: int, k: int|
                    0 <= li < out@.len() && 0 <= k < out@[li].points@.len() ==> side_midpoint(
                        #[trigger] out@[li].points@[k],
                        h as int,
                        w as int,
                    ),
            decreases comps@.len() - ci,
        {
            match build_boundary(&comps[ci]) {
                Ok(b) => {
                    out.push(b);
                },
                Err(e) => {
                    proof {
                        assert(has_mixed_vertex(labels@, h as int, w as int));
                    }
                    return Err(e);
                },
            }
            ci = ci + 1;
        }
        proof {
            assert(component_label_census(
                labels@,
                h as int,
                w as int,
                comp_labels@,
                out@.len() as int,
            ));
        }
        Ok(out)
    }

    /// The naive boundary variant on a binary mask: labels it into
    /// 4-connected components, then runs the vertex scan.
    pub fn from_naive_algorithm(mask: &Vec<Vec<u8>>) -> (res: Result<Boundary2d, SkelError>)
        requires
            mask@.len() <= 4000,
            forall|i: int| 0 <= i < mask@.len() ==> (#[trigger] mask@[i])@.len() == mask_width(
                mask@,
            ),
            mask_width(mask@) <= 4000,
            mask_has_background(mask@),
        ensures
            match res {
                Ok(b) => {
                    &&& b.wf()
                    &&& forall|k: int|
                        0 <= k < b.points@.len() ==> vertex_point(
                            #[trigger] b.points@[k],
                            mask@.len() as int,
                            mask_width(mask@),
                        )
                    &&& (b.n() > 0 <==> mask_has_mixed_vertex(
                        mask@,
                        mask@.len() as int,
                        mask_width(mask@),
                    ))
                },
                Err(e) => e == SkelError::AmbiguousTopology || e == SkelError::IndexInconsistency,
            },
    {
        let labels = label_rows(mask, Connectivity::Four);
        let res = Self::from_naive_labels(&labels);
        proof {
            lemma_mask_mixed_equiv(mask@, labels@, mask@.len() as int, mask_width(mask@));
        }
        res
    }

    /// The naive vertex scan over an already labeled raster: every grid
    /// vertex with a mixed 2x2 neighborhood becomes a boundary point at
    /// the vertex itself, keyed per component, and the sides toward
    /// equally labeled neighbors become segments.  Certain adjacent-corner
    /// configurations — two equal diagonal corners over two background
    /// corners — it explicitly refuses to resolve, and the first one
    /// found aborts the scan.
    #[verifier::rlimit(60)]
    #[verifier::spinoff_prover]
    pub fn from_naive_labels(labels: &Vec<Vec<u32>>) -> (res: Result<Boundary2d, SkelError>)
        requires
            raster_wf(labels@, labels@.len() as int, raster_width(labels@)),
        ensures
            match res {
                Ok(b) => {
                    &&& b.wf()
                    &&& !naive_has_ambiguity(labels@, labels@.len() as int, raster_width(labels@))
                    &&& forall|k: int|
                        0 <= k < b.points@.len() ==> vertex_point(
                            #[trigger] b.points@[k],
                            labels@.len() as int,
                            raster_width(labels@),
                        )
                    &&& (b.n() > 0 <==> has_mixed_vertex(
                        labels@,
                        labels@.len() as int,
                        raster_width(labels@),
                    ))
                },
                Err(e) => {
                    ||| (e == SkelError::AmbiguousTopology && naive_has_ambiguity(
                        labels@,
                        labels@.len() as int,
                        raster_width(labels@),
                    ))
                    ||| (e == SkelError::IndexInconsistency && !naive_has_ambiguity(
                        labels@,
                        labels@.len() as int,
                        raster_width(labels@),
                    ))
                },
            },
            !naive_has_ambiguity(labels@, labels@.len() as int, raster_width(labels@))
                && !has_mixed_vertex(labels@, labels@.len() as int, raster_width(labels@))
                ==> res.is_ok(),
    {
        let h = labels.len();
        let w = if h > 0 {
            labels[0].len()
        } else {
            0
        };
        let lin: i64 = w as i64 + 1;
        proof {
            crate::arith::lemma_mul_bounds(w as int + 1, h as int + 1, 4001, 4001);
        }
        let cc_len: i64 = (w as i64 + 1) * (h as i64 + 1);
        proof {
            assert(cc_len > 0) by (nonlinear_arith)
                requires
                    cc_len == (w as i64 + 1) * (h as i64 + 1) && w as i64 + 1 > 0 && h as i64 + 1
                        > 0,
            ;
        }
        let mut store = CompData { keys: Vec::new(), pts: Vec::new(), edges: Vec::new() };
        let mut vr: usize = 0;
        while vr <= h
            invariant
                raster_wf(labels@, h as int, w as int),
                h == labels@.len(),
                w as int == raster_width(labels@),
                lin == w as i64 + 1,
                cc_len == (w as i64 + 1) * (h as i64 + 1),
                0 < cc_len <= 0x1000000,
                0 <= vr <= h + 1,
                store.keys@.len() == store.pts@.len(),
                forall|pi: int|
                    0 <= pi < store.pts@.len() ==> (#[trigger] store.pts@[pi]).in_bounds(),
                forall|pi: int|
                    0 <= pi < store.pts@.len() ==> vertex_point(
                        #[trigger] store.pts@[pi],
                        h as int,
                        w as int,
                    ),
                (exists|r: int, c: int|
                    0 <= r < vr && 0 <= c <= w && #[trigger] mixed_at(
                        labels@,
                        h as int,
                        w as int,
                        r,
                        c,
                    )) ==> store.pts@.len() > 0,
                (store.pts@.len() > 0 || store.edges@.len() > 0) ==> (exists|r: int, c: int|
                    0 <= r < vr && 0 <= c <= w && #[trigger] mixed_at(
                        labels@,
                        h as int,
                        w as int,
                        r,
                        c,
                    )),
                forall|r0: int, c0: int|
                    0 <= r0 < vr && 0 <= c0 <= w ==> !naive_ambiguous_at(
                        labels@,
                        h as int,
                        w as int,
                        r0,
                        c0,
                    ),
            decreases h + 1 - vr,
        {
            let mut vc: usize = 0;
            while vc <= w
                invariant
                    raster_wf(labels@, h as int, w as int),
                    h == labels@.len(),
                    w as int == raster_width(labels@),
                    lin == w as i64 + 1,
                    cc_len == (w as i64 + 1) * (h as i64 + 1),
                    0 < cc_len <= 0x1000000,
                    vr <= h,
                    0 <= vc <= w + 1,
                    store.keys@.len() == store.pts@.len(),
                    forall|pi: int|
                        0 <= pi < store.pts@.len() ==> (#[trigger] store.pts@[pi]).in_bounds(),
                    forall|pi: int|
                        0 <= pi < store.pts@.len() ==> vertex_point(
                            #[trigger] store.pts@[pi],
                            h as int,
                            w as int,
                        ),
                    (exists|r: int, c: int|
                        0 <= r <= h && 0 <= c <= w && (r < vr || (r == vr && c < vc))
                            && #[trigger] mixed_at(labels@, h as int, w as int, r, c))
                        ==> store.pts@.len() > 0,
                    (store.pts@.len() > 0 || store.edges@.len() > 0) ==> (exists|r: int, c: int|
                        0 <= r <= h && 0 <= c <= w && (r < vr || (r == vr && c < vc))
                            && #[trigger] mixed_at(labels@, h as int, w as int, r, c)),
                    forall|r0: int, c0: int|
                        0 <= r0 < vr && 0 <= c0 <= w ==> !naive_ambiguous_at(
                            labels@,
                            h as int,
                            w as int,
                            r0,
                            c0,
                        ),
                    forall|c0: int|
                        0 <= c0 < vc ==> !naive_ambiguous_at(
                            labels@,
                            h as int,
                            w as int,
                            vr as int,
                            c0,
                        ),
                decreases w + 1 - vc,
            {
                let val00: u32 = if vr > 0 && vc > 0 {
                    labels[vr - 1][vc - 1]
                } else {
                    0
                };
                let val01: u32 = if vr > 0 && vc < w {
                    labels[vr - 1][vc]
                } else {
                    0
                };
                let val10: u32 = if vr < h && vc > 0 {
                    labels[vr][vc - 1]
                } else {
                    0
                };
                let val11: u32 = if vr < h && vc < w {
                    labels[vr][vc]
                } else {
                    0
                };
                let ghost pts_at_vertex = store.pts@.len();
                let ghost edges_at_vertex = store.edges@.len();
                proof {
                    assert(val00 == lab(labels@, h as int, w as int, vr as int - 1, vc as int - 1));
                    assert(val01 == lab(labels@, h as int, w as int, vr as int - 1, vc as int));
                    assert(val10 == lab(labels@, h as int, w as int, vr as int, vc as int - 1));
                    assert(val11 == lab(labels@, h as int, w as int, vr as int, vc as int));
                }
                let v00 = val00 != 0;
                let v01 = val01 != 0;
                let v10 = val10 != 0;
                let v11 = val11 != 0;
                if (val00 == val11 && v00 && !v01 && !v10) || (val10 == val01 && v10 && !v00
                    && !v11) {
                    proof {
                        assert(naive_ambiguous_at(labels@, h as int, w as int, vr as int, vc as int));
                    }
                    return Err(SkelError::AmbiguousTopology);
                }
                if !((v00 && v01 && v10 && v11) || (!v00 && !v01 && !v10 && !v11)) {
                    let ri = vr as i64;
                    let ci = vc as i64;
                    proof {
                        crate::arith::lemma_mul_bounds(ri as int, lin as int, 4001, 4001);
                        crate::arith::lemma_mul_bounds(
                            val00 as int,
                            cc_len as int,
                            0x1_0000_0000,
                            0x1000000,
                        );
                        crate::arith::lemma_mul_bounds(
                            val01 as int,
                            cc_len as int,
                            0x1_0000_0000,
                            0x1000000,
                        );
                        crate::arith::lemma_mul_bounds(
                            val10 as int,
                            cc_len as int,
                            0x1_0000_0000,
                            0x1000000,
                        );
                        crate::arith::lemma_mul_bounds(
                            val11 as int,
                            cc_len as int,
                            0x1_0000_0000,
                            0x1000000,
                        );
                        crate::arith::lemma_mul_bounds((ri - 1) as int, lin as int, 4001, 4001);
                        crate::arith::lemma_mul_bounds((ri + 1) as int, lin as int, 4002, 4001);
                    }
                    let ind_cur: i64 = ri * lin + ci;
                    let pt = Point2 { x: 2 * ci, y: 2 * ri };
                    if val00 != 0 {
                        add_point(&mut store, val00 as i64 * cc_len + ind_cur, pt, Ghost(h as int), Ghost(w as int));
                    }
                    if val01 != 0 && val01 != val00 {
                        add_point(&mut store, val01 as i64 * cc_len + ind_cur, pt, Ghost(h as int), Ghost(w as int));
                    }
                    if val10 != 0 && val10 != val01 && val10 != val00 {
                        add_point(&mut store, val10 as i64 * cc_len + ind_cur, pt, Ghost(h as int), Ghost(w as int));
                    }
                    if val11 != 0 && val11 != val10 && val11 != val01 && val11 != val00 {
                        add_point(&mut store, val11 as i64 * cc_len + ind_cur, pt, Ghost(h as int), Ghost(w as int));
                    }
                    if !v00 && v01 {
                        let ind_up: i64 = (ri - 1) * lin + ci;
                        store.edges.push(
                            (val01 as i64 * cc_len + ind_cur, val01 as i64 * cc_len + ind_up),
                        );
                    }
                    if !v01 && v11 {
                        let ind_right: i64 = ri * lin + (ci + 1);
                        store.edges.push(
                            (val11 as i64 * cc_len + ind_cur, val11 as i64 * cc_len + ind_right),
                        );
                    }
                    if !v11 && v10 {
                        let ind_down: i64 = (ri + 1) * lin + ci;
                        store.edges.push(
                            (val10 as i64 * cc_len + ind_cur, val10 as i64 * cc_len + ind_down),
                        );
                    }
                    if !v10 && v00 {
                        let ind_left: i64 = ri * lin + (ci - 1);
                        store.edges.push(
                            (val00 as i64 * cc_len + ind_cur, val00 as i64 * cc_len + ind_left),
                        );
                    }
                }
                proof {
                    if mixed_at(labels@, h as int, w as int, vr as int, vc as int) {
                        assert(store.pts@.len() > 0);
                    }
                    if store.pts@.len() > pts_at_vertex || store.edges@.len() > edges_at_vertex {
                        assert(mixed_at(labels@, h as int, w as int, vr as int, vc as int));
                    }
                }
                vc = vc + 1;
            }
            vr = vr + 1;
        }
        proof {
            if !has_mixed_vertex(labels@, h as int, w as int) {
                assert(store.pts@.len() == 0 && store.edges@.len() == 0);
            }
        }
        match build_boundary(&store) {
            Ok(b) => Ok(b),
            Err(e) => Err(e),
        }
    }

    /// Walks one complete cycle of the successor map starting at an
    /// unused point, marking its points used: the walk follows `next`
    /// until it returns to the start, which the mutually inverse maps
    /// guarantee.
    #[verifier::rlimit(100)]
    #[verifier::spinoff_prover]
    fn extract_loop(&self, used: &mut Vec<bool>, start: usize) -> (lp: Vec<usize>)
        requires
            self.wf(),
            old(used)@.len() == self.n(),
            start < self.n(),
            !old(used)@[start as int],
            forall|j: int| 0 <= j < start ==> (#[trigger] old(used)@[j]),
            forall|j: int|
                0 <= j < self.n() && (#[trigger] old(used)@[j])
                    ==> old(used)@[self.prev_neighbor@[j] as int],
        ensures
            forall|k: int| 0 <= k < lp@.len() ==> !old(used)@[(#[trigger] lp@[k]) as int],
            forall|k: int| 0 <= k < lp@.len() ==> start <= (#[trigger] lp@[k]),
            final(used)@.len() == self.n(),
            forall|j: int|
                0 <= j < self.n() ==> ((#[trigger] final(used)@[j]) <==> (old(used)@[j]
                    || lp@.contains(j as usize))),
            forall|j: int|
                0 <= j < self.n() && (#[trigger] final(used)@[j])
                    ==> final(used)@[self.prev_neighbor@[j] as int],
            lp@.len() > 0,
            lp@[0] == start,
            forall|k: int| 0 <= k < lp@.len() ==> (#[trigger] lp@[k]) < self.n(),
            forall|k: int|
                0 <= k < lp@.len() ==> self.next_neighbor@[(#[trigger] lp@[k]) as int] == lp@[(k
                    + 1) % (lp@.len() as int)],
            forall|k1: int, k2: int| 0 <= k1 < k2 < lp@.len() ==> lp@[k1] != lp@[k2],
    {
        let n = used.len();
        let ghost used0 = used@;
        let mut loop_ind: Vec<usize> = Vec::new();
        let mut ind_cur: usize = start;
        while !used[ind_cur]
            invariant
                self.wf(),
                n == self.n(),
                start < n,
                ind_cur < n,
                used@.len() == n,
                used0.len() == n,
                used0 == old(used)@,
                !used0[start as int],
                forall|k: int| 0 <= k < loop_ind@.len() ==> (#[trigger] loop_ind@[k]) < n,
                forall|k: int|
                    0 <= k < loop_ind@.len() ==> !used0[#[trigger] loop_ind@[k] as int],
                forall|j: int|
                    0 <= j < n ==> ((#[trigger] used@[j]) <==> (used0[j] || loop_ind@.contains(
                        j as usize,
                    ))),
                loop_ind@.len() == 0 ==> ind_cur == start,
                loop_ind@.len() > 0 ==> loop_ind@[0] == start && ind_cur
                    == self.next_neighbor@[loop_ind@.last() as int],
                forall|k: int|
                    0 <= k < loop_ind@.len() - 1
                        ==> self.next_neighbor@[#[trigger] loop_ind@[k] as int] == loop_ind@[k
                        + 1],
                forall|k1: int, k2: int|
                    0 <= k1 < k2 < loop_ind@.len() ==> loop_ind@[k1] != loop_ind@[k2],
                forall|j: int| 0 <= j < n && used0[j] ==> used0[self.prev_neighbor@[j] as int],
            decreases vstd::set_lib::set_int_range(0, n as int).difference(
                Set::new(|j: int| 0 <= j < n && used@[j]),
            ).len(),
        {
            proof {
                let unused_before = vstd::set_lib::set_int_range(0, n as int).difference(
                    Set::new(|j: int| 0 <= j < n && used@[j]),
                );
                vstd::set_lib::lemma_int_range(0, n as int);
                vstd::set_lib::lemma_len_subset(
                    unused_before,
                    vstd::set_lib::set_int_range(0, n as int),
                );
                assert(unused_before.contains(ind_cur as int));
                lemma_push_contains_usize(loop_ind@, ind_cur);
            }
            let ghost used_before = used@;
            let ghost loop_before = loop_ind@;
            loop_ind.push(ind_cur);
            used.set(ind_cur, true);
            proof {
                let unused_before = vstd::set_lib::set_int_range(0, n as int).difference(
                    Set::new(|j: int| 0 <= j < n && used_before[j]),
                );
                let unused_after = vstd::set_lib::set_int_range(0, n as int).difference(
                    Set::new(|j: int| 0 <= j < n && used@[j]),
                );
                assert(unused_after =~= unused_before.remove(ind_cur as int));
                vstd::set_lib::lemma_int_range(0, n as int);
                vstd::set_lib::lemma_len_subset(
                    unused_before,
                    vstd::set_lib::set_int_range(0, n as int),
                );
                assert(unused_before.remove(ind_cur as int).insert(ind_cur as int)
                    =~= unused_before);
                assert(unused_after.len() < unused_before.len());
                assert(loop_ind@.last() == ind_cur);
                assert forall|j: int|
                    0 <= j < n implies ((#[trigger] used@[j]) <==> (used0[j]
                        || loop_ind@.contains(j as usize))) by {
                    if used@[j] && j != ind_cur {
                        assert(used_before[j]);
                    }
                    if loop_ind@.contains(j as usize) && j != ind_cur {
                        let k = choose|k: int|
                            0 <= k < loop_ind@.len() && loop_ind@[k] == j as usize;
                        assert(loop_before[k] == j as usize);
                        assert(loop_before.contains(j as usize));
                    }
                }
            }
            ind_cur = self.next_neighbor[ind_cur];
        }
        proof {
            assert(loop_ind@.len() > 0);
            assert(loop_ind@.contains(ind_cur) || used0[ind_cur as int]);
            lemma_orbit_closes(*self, used0, loop_ind@, ind_cur, start);
            lemma_closure_extend(*self, loop_ind@, used0, used@);
            lemma_chain_wrap(*self, loop_ind@);
        }
        loop_ind
    }

    /// Decomposes the boundary into its loops, as index sequences: each
    /// returned loop follows the successor map and closes back on its
    /// first point after exactly its own length, and every index appears —
    /// following `next` from any point returns to it after one full loop.
    #[verifier::rlimit(100)]
    #[verifier::spinoff_prover]
    pub fn get_loops_ind(&self) -> (r: Vec<Vec<usize>>)
        requires
            self.wf(),
        ensures
            loops_decomposition(*self, r@),
            forall|li: int|
                0 <= li < r@.len() ==> (#[trigger] r@[li])@.len() > 0,
            forall|li: int, k: int|
                0 <= li < r@.len() && 0 <= k < r@[li]@.len() ==> (#[trigger] r@[li]@[k]) < self.n(),
            forall|li: int, k: int|
                0 <= li < r@.len() && 0 <= k < r@[li]@.len()
                    ==> self.next_neighbor@[(#[trigger] r@[li]@[k]) as int] == r@[li]@[(k + 1) % (
                r@[li]@.len() as int)],
            forall|li: int, k1: int, k2: int|
                0 <= li < r@.len() && 0 <= k1 < k2 < r@[li]@.len() ==> (#[trigger] r@[li]@[k1])
                    != (#[trigger] r@[li]@[k2]),
            forall|i: usize| i < self.n() ==> #[trigger] appears(r@, i),
    {
        let n = self.points.len();
        let mut used: Vec<bool> = Vec::new();
        let mut z: usize = 0;
        while z < n
            invariant
                0 <= z <= n,
                used@.len() == z,
                forall|j: int| 0 <= j < z ==> !(#[trigger] used@[j]),
            decreases n - z,
        {
            used.push(false);
            z = z + 1;
        }
        let mut loops_ind: Vec<Vec<usize>> = Vec::new();
        let mut i: usize = 0;
        while i < n
            invariant
                self.wf(),
                n == self.n(),
                0 <= i <= n,
                used@.len() == n,
                forall|j: int| 0 <= j < i ==> (#[trigger] used@[j]),
                forall|j: int|
                    0 <= j < n && (#[trigger] used@[j]) ==> used@[self.prev_neighbor@[j] as int],
                forall|j: usize|
                    j < n ==> ((#[trigger] used@[j as int]) <==> appears(loops_ind@, j)),
                forall|li: int|
                    0 <= li < loops_ind@.len() ==> (#[trigger] loops_ind@[li])@.len() > 0,
                forall|li: int, k: int|
                    0 <= li < loops_ind@.len() && 0 <= k < loops_ind@[li]@.len()
                        ==> (#[trigger] loops_ind@[li]@[k]) < n,
                forall|li: int, k: int|
                    0 <= li < loops_ind@.len() && 0 <= k < loops_ind@[li]@.len()
                        ==> self.next_neighbor@[(#[trigger] loops_ind@[li]@[k]) as int]
                        == loops_ind@[li]@[(k + 1) % (loops_ind@[li]@.len() as int)],
                forall|li: int, k1: int, k2: int|
                    0 <= li < loops_ind@.len() && 0 <= k1 < k2 < loops_ind@[li]@.len()
                        ==> (#[trigger] loops_ind@[li]@[k1]) != (#[trigger] loops_ind@[li]@[k2]),
                forall|li: int, k: int|
                    0 <= li < loops_ind@.len() && 0 <= k < loops_ind@[li]@.len()
                        ==> loops_ind@[li]@[0] <= (#[trigger] loops_ind@[li]@[k]),
                forall|li: int| 0 <= li < loops_ind@.len() ==> (#[trigger] loops_ind@[li]@[0]) < i,
                forall|li1: int, li2: int|
                    0 <= li1 < li2 < loops_ind@.len() ==> (#[trigger] loops_ind@[li1]@[0]) < (
                    #[trigger] loops_ind@[li2]@[0]),
                forall|li1: int, li2: int, k1: int, k2: int|
                    0 <= li1 < li2 < loops_ind@.len() && 0 <= k1 < loops_ind@[li1]@.len() && 0 <= k2
                        < loops_ind@[li2]@.len() ==> (#[trigger] loops_ind@[li1]@[k1]) != (
                    #[trigger] loops_ind@[li2]@[k2]),
            decreases n - i,
        {
            if !used[i] {
                let ghost old_used = used@;
                let lp = self.extract_loop(&mut used, i);
                let ghost loops_before = loops_ind@;
                let ghost lp_snap = lp@;
                let ghost used_snap = used@;
                loops_ind.push(lp);
                proof {
                    lemma_appears_extend(
                        loops_ind@,
                        loops_before,
                        loops_ind@[loops_ind@.len() - 1],
                        old_used,
                        used_snap,
                        n as int,
                    );
                    assert(loops_ind@[loops_ind@.len() - 1]@ == lp_snap);
                    let newli = loops_ind@.len() - 1;
                    assert(lp_snap[0] == i);
                    assert forall|li1: int, li2: int, k1: int, k2: int|
                        0 <= li1 < li2 < loops_ind@.len() && 0 <= k1 < loops_ind@[li1]@.len() && 0
                            <= k2 < loops_ind@[li2]@.len() implies (
                    #[trigger] loops_ind@[li1]@[k1]) != (#[trigger] loops_ind@[li2]@[k2]) by {
                        if li2 == newli {
                            let v = loops_ind@[li1]@[k1];
                            assert(loops_before[li1]@[k1] == v);
                            assert(appears(loops_before, v));
                            assert(old_used[v as int]);
                            assert(!old_used[lp_snap[k2] as int]);
                        }
                    }
                }
            }
            i = i + 1;
        }
        proof {
            assert forall|ii: usize| ii < n implies #[trigger] appears(loops_ind@, ii) by {
                assert(used@[ii as int]);
            }
        }
        loops_ind
    }

    /// The loops of the boundary as point sequences, in extraction order:
    /// the point lists of an index decomposition of the boundary, each
    /// index replaced by its point.
    pub fn get_loops_pts(&self) -> (r: Vec<Vec<Point2>>)
        requires
            self.wf(),
        ensures
            exists|inds: Seq<Vec<usize>>|
                {
                    &&& #[trigger] loops_decomposition(*self, inds)
                    &&& r@.len() == inds.len()
                    &&& forall|li: int|
                        0 <= li < inds.len() ==> (#[trigger] r@[li])@.len() == inds[li]@.len()
                    &&& forall|li: int, k: int|
                        0 <= li < inds.len() && 0 <= k < inds[li]@.len() ==> (#[trigger] r@[li]@[k])
                            == self.points@[inds[li]@[k] as int]
                },
            forall|li: int| 0 <= li < r@.len() ==> (#[trigger] r@[li])@.len() > 0,
            forall|li: int, k: int|
                0 <= li < r@.len() && 0 <= k < r@[li]@.len() ==> (#[trigger] r@[li]@[k]).in_bounds(),
    {
        let loops = self.get_loops_ind();
        let mut out: Vec<Vec<Point2>> = Vec::new();
        let mut li: usize = 0;
        while li < loops.len()
            invariant
                self.wf(),
                0 <= li <= loops@.len(),
                loops_decomposition(*self, loops@),
                forall|q: int|
                    0 <= q < loops@.len() ==> (#[trigger] loops@[q])@.len() > 0,
                forall|q: int, k: int|
                    0 <= q < loops@.len() && 0 <= k < loops@[q]@.len()
                        ==> (#[trigger] loops@[q]@[k]) < self.n(),
                out@.len() == li,
                forall|q: int|
                    0 <= q < li ==> (#[trigger] out@[q])@.len() == loops@[q]@.len(),
                forall|q: int, k: int|
                    0 <= q < li && 0 <= k < out@[q]@.len() ==> (#[trigger] out@[q]@[k]).in_bounds(),
                forall|q: int, k: int|
                    0 <= q < li && 0 <= k < loops@[q]@.len() ==> (#[trigger] out@[q]@[k])
                        == self.points@[loops@[q]@[k] as int],
            decreases loops@.len() - li,
        {
            let lp = &loops[li];
            let mut pts: Vec<Point2> = Vec::new();
            let mut k: usize = 0;
            while k < lp.len()
                invariant
                    self.wf(),
                    li < loops@.len(),
                    lp == &loops@[li as int],
                    0 <= k <= lp@.len(),
                    forall|q: int, m: int|
                        0 <= q < loops@.len() && 0 <= m < loops@[q]@.len()
                            ==> (#[trigger] loops@[q]@[m]) < self.n(),
                    pts@.len() == k,
                    forall|m: int| 0 <= m < k ==> (#[trigger] pts@[m]).in_bounds(),
                    forall|m: int|
                        0 <= m < k ==> (#[trigger] pts@[m]) == self.points@[lp@[m] as int],
                decreases lp@.len() - k,
            {
                pts.push(self.points[lp[k]]);
                k = k + 1;
            }
            out.push(pts);
            li = li + 1;
        }
        proof {
            assert(loops_decomposition(*self, loops@));
        }
        out
    }
}


/// When the orbit walk stops on an already-used point, that point is the
/// walk's own start: the successor map is injective, earlier loops are
/// closed under predecessors, and the walked points were fresh.
proof fn lemma_orbit_closes(
    bnd: Boundary2d,
    used0: Seq<bool>,
    lp: Seq<usize>,
    ind_cur: usize,
    start: usize,
)
    requires
        bnd.wf(),
        used0.len() == bnd.n(),
        start < bnd.n(),
        ind_cur < bnd.n(),
        !used0[start as int],
        lp.len() > 0,
        lp[0] == start,
        ind_cur == bnd.next_neighbor@[lp.last() as int],
        forall|k: int| 0 <= k < lp.len() ==> (#[trigger] lp[k]) < bnd.n(),
        forall|k: int| 0 <= k < lp.len() ==> !used0[#[trigger] lp[k] as int],
        forall|k: int|
            0 <= k < lp.len() - 1 ==> bnd.next_neighbor@[#[trigger] lp[k] as int] == lp[k + 1],
        forall|k1: int, k2: int| 0 <= k1 < k2 < lp.len() ==> lp[k1] != lp[k2],
        forall|j: int| 0 <= j < bnd.n() && used0[j] ==> used0[bnd.prev_neighbor@[j] as int],
        used0[ind_cur as int] || lp.contains(ind_cur),
    ensures
        ind_cur == start,
        bnd.next_neighbor@[lp.last() as int] == lp[0],
{
    let last = lp.last();
    if used0[ind_cur as int] {
        assert(bnd.prev_neighbor@[ind_cur as int] == last) by {
            assert(bnd.next_neighbor@[last as int] == ind_cur);
        }
        assert(used0[last as int]);
        assert(lp[lp.len() - 1] == last);
        assert(false);
    }
    let k = choose|k: int| 0 <= k < lp.len() && lp[k] == ind_cur;
    if k > 0 {
        assert(bnd.next_neighbor@[lp[k - 1] as int] == lp[k]);
        assert(bnd.next_neighbor@[last as int] == ind_cur);
        assert(bnd.prev_neighbor@[ind_cur as int] == lp[k - 1]);
        assert(bnd.prev_neighbor@[ind_cur as int] == last);
        assert(lp[k - 1] == lp[lp.len() - 1]);
        assert(k - 1 == lp.len() - 1);
        assert(false);
    }
}

/// Appending one complete cycle keeps the bookkeeping exact: a point is
/// used precisely when it appears in some extracted loop.
proof fn lemma_appears_extend(
    loops2: Seq<Vec<usize>>,
    loops_before: Seq<Vec<usize>>,
    lpv: Vec<usize>,
    used0: Seq<bool>,
    used: Seq<bool>,
    n: int,
)
    requires
        loops2 == loops_before.push(lpv),
        used0.len() == n,
        used.len() == n,
        forall|j: int| 0 <= j < n ==> ((#[trigger] used[j]) <==> (used0[j] || lpv@.contains(j as usize))),
        forall|j: usize| j < n ==> ((#[trigger] used0[j as int]) <==> appears(loops_before, j)),
        forall|k: int| 0 <= k < lpv@.len() ==> (#[trigger] lpv@[k]) < n,
    ensures
        forall|j: usize| j < n ==> ((#[trigger] used[j as int]) <==> appears(loops2, j)),
{
    let newli = loops2.len() - 1;
    assert forall|j: usize| j < n implies ((#[trigger] used[j as int]) <==> appears(loops2, j)) by {
        if used[j as int] {
            if used0[j as int] {
                assert(appears(loops_before, j));
                let (li, k): (int, int) = choose|li: int, k: int|
                    0 <= li < loops_before.len() && 0 <= k < loops_before[li]@.len() && (
                    #[trigger] loops_before[li]@[k]) == j;
                assert(loops2[li]@[k] == j);
                assert(appears(loops2, j));
            } else {
                assert(lpv@.contains(j));
                let k = choose|k: int| 0 <= k < lpv@.len() && lpv@[k] == j;
                assert(loops2[newli]@[k] == j);
                assert(appears(loops2, j));
            }
        } else {
            assert(!used0[j as int]);
            if appears(loops2, j) {
                let (li, k): (int, int) = choose|li: int, k: int|
                    0 <= li < loops2.len() && 0 <= k < loops2[li]@.len() && (
                    #[trigger] loops2[li]@[k]) == j;
                if li < newli {
                    assert(loops_before[li]@[k] == j);
                    assert(appears(loops_before, j));
                } else {
                    assert(lpv@[k] == j);
                    assert(lpv@.contains(j));
                }
                assert(false);
            }
        }
    }
}

/// The used set stays closed under predecessors after one complete cycle
/// joins it.
proof fn lemma_closure_extend(
    bnd: Boundary2d,
    lp: Seq<usize>,
    used0: Seq<bool>,
    used: Seq<bool>,
)
    requires
        bnd.wf(),
        used0.len() == bnd.n(),
        used.len() == bnd.n(),
        lp.len() > 0,
        forall|k: int| 0 <= k < lp.len() ==> (#[trigger] lp[k]) < bnd.n(),
        forall|k: int|
            0 <= k < lp.len() - 1 ==> bnd.next_neighbor@[#[trigger] lp[k] as int] == lp[k + 1],
        bnd.next_neighbor@[lp.last() as int] == lp[0],
        forall|j: int| 0 <= j < bnd.n() && used0[j] ==> used0[bnd.prev_neighbor@[j] as int],
        forall|j: int| 0 <= j < bnd.n() ==> ((#[trigger] used[j]) <==> (used0[j] || lp.contains(j as usize))),
    ensures
        forall|j: int| 0 <= j < bnd.n() && (#[trigger] used[j]) ==> used[bnd.prev_neighbor@[j] as int],
{
    assert forall|j: int|
        0 <= j < bnd.n() && (#[trigger] used[j]) implies used[bnd.prev_neighbor@[j] as int] by {
        if !used0[j] {
            let k = choose|k: int| 0 <= k < lp.len() && lp[k] == j as usize;
            if k > 0 {
                assert(bnd.next_neighbor@[lp[k - 1] as int] == lp[k]);
                assert(bnd.prev_neighbor@[j] == lp[k - 1]);
                assert(lp.contains(lp[k - 1]));
            } else {
                let last = lp.last();
                assert(bnd.next_neighbor@[last as int] == lp[0]);
                assert(bnd.prev_neighbor@[j] == last);
                assert(lp.contains(last));
            }
        }
    }
}


/// The working store of one connected component during the marching
/// squares scan: deduplicated side-midpoint keys with their points, and
/// the emitted directed segments as key pairs.
struct CompData {
    keys: Vec<i64>,
    pts: Vec<Point2>,
    edges: Vec<(i64, i64)>,
}

/// All component stores are consistent: keys and points run in parallel
/// and every stored point is in the coordinate range.
spec fn comps_wf(comps: Seq<CompData>) -> bool {
    forall|ci: int|
        0 <= ci < comps.len() ==> (#[trigger] comps[ci]).keys@.len() == comps[ci].pts@.len()
            && (forall|pi: int|
            0 <= pi < comps[ci].pts@.len() ==> (#[trigger] comps[ci].pts@[pi]).in_bounds())
}

/// Adds a point to a component store under its key, if the key is new.
fn add_point(store: &mut CompData, key: i64, pt: Point2, gh: Ghost<int>, gw: Ghost<int>)
    requires
        pt.in_bounds(),
        vertex_point(pt, gh@, gw@),
        old(store).keys@.len() == old(store).pts@.len(),
        forall|pi: int|
            0 <= pi < old(store).pts@.len() ==> (#[trigger] old(store).pts@[pi]).in_bounds(),
        forall|pi: int|
            0 <= pi < old(store).pts@.len() ==> vertex_point(
                #[trigger] old(store).pts@[pi],
                gh@,
                gw@,
            ),
    ensures
        final(store).keys@.len() == final(store).pts@.len(),
        forall|pi: int|
            0 <= pi < final(store).pts@.len() ==> (#[trigger] final(store).pts@[pi]).in_bounds(),
        forall|pi: int|
            0 <= pi < final(store).pts@.len() ==> vertex_point(
                #[trigger] final(store).pts@[pi],
                gh@,
                gw@,
            ),
        final(store).edges == old(store).edges,
        final(store).pts@.len() >= old(store).pts@.len(),
        final(store).pts@.len() > 0,
{
    if key_index(&store.keys, key).is_none() {
        store.keys.push(key);
        store.pts.push(pt);
    }
}

/// The position of a key in the store, if present.
fn key_index(keys: &Vec<i64>, key: i64) -> (r: Option<usize>)
    ensures
        match r {
            Some(i) => i < keys@.len() && keys@[i as int] == key,
            None => forall|m: int| 0 <= m < keys@.len() ==> (#[trigger] keys@[m]) != key,
        },
{
    let mut i: usize = 0;
    while i < keys.len()
        invariant
            0 <= i <= keys@.len(),
            forall|m: int| 0 <= m < i ==> (#[trigger] keys@[m]) != key,
        decreases keys@.len() - i,
    {
        if keys[i] == key {
            return Some(i);
        }
        i = i + 1;
    }
    None
}

/// Records one boundary segment of one component: both endpoints join the
/// component's deduplicated point store, and the directed segment joins
/// its edge list.  A component store is created on the component's first
/// segment.
fn insert_and_connect(
    comps: &mut Vec<CompData>,
    comp_labels: &mut Vec<u32>,
    label: u32,
    k0: i64,
    p0: Point2,
    k1: i64,
    p1: Point2,
    gh: Ghost<int>,
    gw: Ghost<int>,
)
    requires
        p0.in_bounds(),
        p1.in_bounds(),
        side_midpoint(p0, gh@, gw@),
        side_midpoint(p1, gh@, gw@),
        old(comps)@.len() == old(comp_labels)@.len(),
        comps_wf(old(comps)@),
        comps_shape(old(comps)@, gh@, gw@),
        comps_nonempty(old(comps)@),
        forall|m1: int, m2: int|
            0 <= m1 < m2 < old(comp_labels)@.len() ==> (#[trigger] old(comp_labels)@[m1]) != (
            #[trigger] old(comp_labels)@[m2]),
    ensures
        final(comps)@.len() == final(comp_labels)@.len(),
        comps_wf(final(comps)@),
        comps_shape(final(comps)@, gh@, gw@),
        comps_nonempty(final(comps)@),
        final(comps)@.len() >= old(comps)@.len(),
        final(comps)@.len() > 0,
        final(comp_labels)@.contains(label),
        forall|l: u32| old(comp_labels)@.contains(l) ==> #[trigger] final(comp_labels)@.contains(l),
        forall|l: u32|
            #[trigger] final(comp_labels)@.contains(l) ==> old(comp_labels)@.contains(l) || l
                == label,
        forall|m1: int, m2: int|
            0 <= m1 < m2 < final(comp_labels)@.len() ==> (#[trigger] final(comp_labels)@[m1]) != (
            #[trigger] final(comp_labels)@[m2]),
{
    let mut ci: usize = 0;
    let mut found: bool = false;
    while ci < comp_labels.len() && !found
        invariant
            0 <= ci <= comp_labels@.len(),
            comps@.len() == comp_labels@.len(),
            comps_wf(comps@),
            found ==> ci < comp_labels@.len() && comp_labels@[ci as int] == label,
            !found ==> forall|m: int| 0 <= m < ci ==> (#[trigger] comp_labels@[m]) != label,
        decreases comp_labels@.len() - ci + (if found {
            0int
        } else {
            1int
        }),
    {
        if comp_labels[ci] == label {
            found = true;
        } else {
            ci = ci + 1;
        }
    }
    proof {
        if found {
            assert(comp_labels@.contains(label));
        } else {
            assert(!comp_labels@.contains(label)) by {
                if comp_labels@.contains(label) {
                    let m = choose|m: int|
                        0 <= m < comp_labels@.len() && comp_labels@[m] == label;
                }
            }
        }
    }
    let ghost labels_before = comp_labels@;
    if !found {
        comps.push(CompData { keys: Vec::new(), pts: Vec::new(), edges: Vec::new() });
        comp_labels.push(label);
        ci = comps.len() - 1;
        proof {
            assert(comp_labels@[comp_labels@.len() - 1] == label);
            assert(comp_labels@.contains(label));
            assert forall|l: u32| labels_before.contains(l) implies #[trigger] comp_labels@.contains(
                l,
            ) by {
                let m = choose|m: int| 0 <= m < labels_before.len() && labels_before[m] == l;
                assert(comp_labels@[m] == l);
            }
            assert forall|l: u32|
                #[trigger] comp_labels@.contains(l) implies labels_before.contains(l) || l
                == label by {
                let m = choose|m: int| 0 <= m < comp_labels@.len() && comp_labels@[m] == l;
                if m < labels_before.len() {
                    assert(labels_before[m] == l);
                }
            }
        }
        proof {
            assert forall|q: int|
                0 <= q < comps@.len() implies (#[trigger] comps@[q]).keys@.len()
                == comps@[q].pts@.len() && (forall|pi: int|
                0 <= pi < comps@[q].pts@.len() ==> (#[trigger] comps@[q].pts@[pi]).in_bounds()) by {
            }
            assert forall|q: int, pi: int|
                0 <= q < comps@.len() && 0 <= pi < comps@[q].pts@.len() implies side_midpoint(
                #[trigger] comps@[q].pts@[pi],
                gh@,
                gw@,
            ) by {}
        }
    }
    let ghost before = comps@;
    let mut comp = comps.remove(ci);
    if key_index(&comp.keys, k0).is_none() {
        comp.keys.push(k0);
        comp.pts.push(p0);
    }
    if key_index(&comp.keys, k1).is_none() {
        comp.keys.push(k1);
        comp.pts.push(p1);
    }
    comp.edges.push((k0, k1));
    comps.insert(ci, comp);
    proof {
        assert forall|q: int|
            0 <= q < comps@.len() implies (#[trigger] comps@[q]).keys@.len()
            == comps@[q].pts@.len() && (forall|pi: int|
            0 <= pi < comps@[q].pts@.len() ==> (#[trigger] comps@[q].pts@[pi]).in_bounds()) by {
            if q < ci {
                assert(comps@[q] == before[q]);
            } else if q > ci {
                assert(comps@[q] == before[q]);
            } else {
                assert(comps@[q] == comp);
            }
        }
        assert forall|q: int, pi: int|
            0 <= q < comps@.len() && 0 <= pi < comps@[q].pts@.len() implies side_midpoint(
            #[trigger] comps@[q].pts@[pi],
            gh@,
            gw@,
        ) by {
            if q < ci {
                assert(comps@[q] == before[q]);
            } else if q > ci {
                assert(comps@[q] == before[q]);
            } else {
                assert(comps@[q] == comp);
            }
        }
        assert forall|q: int| 0 <= q < comps@.len() implies (#[trigger] comps@[q]).pts@.len()
            > 0 by {
            if q < ci {
                assert(comps@[q] == before[q]);
            } else if q > ci {
                assert(comps@[q] == before[q]);
            } else {
                assert(comps@[q] == comp);
            }
        }
    }
}


/// Which neighbors count as connected when labeling a raster.
#[derive(Clone, Copy, Debug, PartialEq, Eq, Structural)]
enum Connectivity {
    /// North, south, east and west neighbors.
    Four,
    /// All eight neighbors.
    Eight,
}

/// Relies on imageproc's connected_components: the result raster has the
/// same size, a pixel is labeled 0 exactly when the input pixel is the
/// background value 0, and foreground pixels receive the positive id of
/// their connected component.  At least one byte of a non-empty mask must
/// be background: the labeler sizes its union-find forest to the pixel
/// count while fresh labels start at 1, so a mask whose every pixel
/// founds its own label would push a label equal to the pixel count and
/// fail the forest's bound assertion; one background pixel keeps the
/// label count below it.
#[verifier::external_body]
fn label_components(mask: &Vec<u8>, width: usize, height: usize, conn: Connectivity) -> (r: Vec<
    u32,
>)
    requires
        mask@.len() == width * height,
        width < 0x10000,
        height < 0x10000,
        mask@.len() == 0 || exists|i: int| 0 <= i < mask@.len() && mask@[i] == 0,
    ensures
        r@.len() == mask@.len(),
        forall|i: int| 0 <= i < mask@.len() ==> ((mask@[i] == 0) <==> (r@[i] == 0)),
{
    let img = image::GrayImage::from_raw(width as u32, height as u32, mask.clone()).unwrap();
    let c = match conn {
        Connectivity::Four => imageproc::region_labelling::Connectivity::Four,
        Connectivity::Eight => imageproc::region_labelling::Connectivity::Eight,
    };
    imageproc::region_labelling::connected_components(&img, c, image::Luma([0u8])).into_raw()
}

/// Labels a rectangular binary mask into connected components, as rows of
/// component ids.
fn label_rows(mask: &Vec<Vec<u8>>, conn: Connectivity) -> (r: Vec<Vec<u32>>)
    requires
        mask@.len() <= 4000,
        forall|i: int| 0 <= i < mask@.len() ==> (#[trigger] mask@[i])@.len() == mask_width(mask@),
        mask_width(mask@) <= 4000,
        mask_has_background(mask@),
    ensures
        raster_wf(r@, mask@.len() as int, mask_width(mask@)),
        r@.len() == mask@.len(),
        forall|i: int| 0 <= i < r@.len() ==> (#[trigger] r@[i])@.len() == mask_width(mask@),
        forall|rr: int, cc: int|
            0 <= rr < mask@.len() && 0 <= cc < mask_width(mask@) ==> ((mask@[rr]@[cc] == 0) <==> ((
            #[trigger] r@[rr]@[cc]) == 0)),
{
    let h = mask.len();
    let w = if h > 0 {
        mask[0].len()
    } else {
        0
    };
    let mut flat: Vec<u8> = Vec::new();
    let mut r0: usize = 0;
    while r0 < h
        invariant
            0 <= r0 <= h,
            h == mask@.len(),
            w as int == mask_width(mask@),
            forall|i: int| 0 <= i < h ==> (#[trigger] mask@[i])@.len() == w,
            flat@.len() == r0 * w,
            forall|rr: int, cc: int|
                0 <= rr < r0 && 0 <= cc < w ==> #[trigger] flat@[rr * w + cc] == mask@[rr]@[cc],
        decreases h - r0,
    {
        let mut c0: usize = 0;
        while c0 < w
            invariant
                0 <= c0 <= w,
                r0 < h,
                h == mask@.len(),
                w as int == mask_width(mask@),
                forall|i: int| 0 <= i < h ==> (#[trigger] mask@[i])@.len() == w,
                flat@.len() == r0 * w + c0,
                forall|rr: int, cc: int|
                    0 <= rr < r0 && 0 <= cc < w ==> #[trigger] flat@[rr * w + cc] == mask@[rr]@[cc],
                forall|cc: int|
                    0 <= cc < c0 ==> #[trigger] flat@[r0 * w + cc] == mask@[r0 as int]@[cc],
            decreases w - c0,
        {
            flat.push(mask[r0][c0]);
            proof {
                assert forall|rr: int, cc: int|
                    0 <= rr < r0 && 0 <= cc < w implies #[trigger] flat@[rr * w + cc]
                    == mask@[rr]@[cc] by {
                    assert(rr * w + cc < r0 * w) by (nonlinear_arith)
                        requires
                            0 <= rr < r0 && 0 <= cc < w,
                    ;
                }
            }
            c0 = c0 + 1;
        }
        proof {
            assert(r0 * w + w == (r0 + 1) * w) by (nonlinear_arith);
            assert forall|rr: int, cc: int|
                0 <= rr < r0 + 1 && 0 <= cc < w implies #[trigger] flat@[rr * w + cc]
                == mask@[rr]@[cc] by {
                if rr == r0 {
                    assert(flat@[r0 * w + cc] == mask@[r0 as int]@[cc]);
                }
            }
        }
        r0 = r0 + 1;
    }
    proof {
        assert(h * w < 0x1000000) by (nonlinear_arith)
            requires
                0 <= h <= 4000 && 0 <= w <= 4000,
        ;
        if h > 0 && w > 0 {
            let (rb, cb): (int, int) = choose|rb: int, cb: int|
                0 <= rb < mask@.len() && 0 <= cb < mask_width(mask@) && #[trigger] mask@[rb]@[cb]
                    == 0;
            assert(rb * w + cb < h * w) by (nonlinear_arith)
                requires
                    0 <= rb < h && 0 <= cb < w,
            ;
            assert(0 <= rb * w + cb) by (nonlinear_arith)
                requires
                    0 <= rb && 0 <= cb && w > 0,
            ;
            assert(flat@[rb * w + cb] == 0);
        } else {
            assert(flat@.len() == 0);
        }
    }
    let labeled = label_components(&flat, w, h, conn);
    let mut rows: Vec<Vec<u32>> = Vec::new();
    let mut r0: usize = 0;
    while r0 < h
        invariant
            0 <= r0 <= h,
            h == mask@.len(),
            w as int == mask_width(mask@),
            h <= 4000,
            w <= 4000,
            labeled@.len() == h * w,
            h * w < 0x1000000,
            rows@.len() == r0,
            forall|i: int| 0 <= i < r0 ==> (#[trigger] rows@[i])@.len() == w,
            forall|rr: int, cc: int|
                0 <= rr < r0 && 0 <= cc < w ==> (#[trigger] rows@[rr]@[cc]) == labeled@[rr * w
                    + cc],
        decreases h - r0,
    {
        let mut row: Vec<u32> = Vec::new();
        let mut c0: usize = 0;
        proof {
            assert((r0 + 1) * w == r0 * w + w) by (nonlinear_arith);
            assert((r0 + 1) * w <= h * w) by (nonlinear_arith)
                requires
                    r0 + 1 <= h && w >= 0,
            ;
        }
        while c0 < w
            invariant
                0 <= c0 <= w,
                r0 < h,
                labeled@.len() == h * w,
                h * w < 0x1000000,
                r0 * w + w <= h * w,
                row@.len() == c0,
                forall|cc: int|
                    0 <= cc < c0 ==> (#[trigger] row@[cc]) == labeled@[r0 * w + cc],
            decreases w - c0,
        {
            row.push(labeled[r0 * w + c0]);
            c0 = c0 + 1;
        }
        rows.push(row);
        r0 = r0 + 1;
    }
    proof {
        assert forall|rr: int, cc: int|
            0 <= rr < mask@.len() && 0 <= cc < mask_width(mask@) implies ((mask@[rr]@[cc] == 0)
            <==> ((rows@[rr]@[cc]) == 0)) by {
            assert(0 <= rr * w + cc < h * w) by (nonlinear_arith)
                requires
                    0 <= rr < h && 0 <= cc < w,
            ;
            assert(flat@[rr * w + cc] == mask@[rr]@[cc]);
            assert(rows@[rr]@[cc] == labeled@[rr * w + cc]);
        }
    }
    rows
}

/// The width shared by every mask row.
pub open spec fn mask_width(mask: Seq<Vec<u8>>) -> int {
    if mask.len() > 0 {
        mask[0]@.len() as int
    } else {
        0
    }
}

/// The mask byte at `(row r, column c)`, 0 outside the raster.
pub open spec fn mask_lab(mask: Seq<Vec<u8>>, h: int, w: int, r: int, c: int) -> u8 {
    if 0 <= r < h && 0 <= c < w {
        mask[r]@[c]
    } else {
        0
    }
}

/// The 2x2 pixel neighborhood of vertex `(r, c)` of the mask is mixed:
/// it holds a foreground and a background pixel.
pub open spec fn mask_mixed_at(mask: Seq<Vec<u8>>, h: int, w: int, r: int, c: int) -> bool {
    let val00 = mask_lab(mask, h, w, r - 1, c - 1);
    let val01 = mask_lab(mask, h, w, r, c - 1);
    let val10 = mask_lab(mask, h, w, r - 1, c);
    let val11 = mask_lab(mask, h, w, r, c);
    &&& !(val00 != 0 && val01 != 0 && val10 != 0 && val11 != 0)
    &&& !(val00 == 0 && val01 == 0 && val10 == 0 && val11 == 0)
}

/// Some vertex of the mask has a mixed neighborhood: the mask shows a
/// boundary at all.
pub open spec fn mask_has_mixed_vertex(mask: Seq<Vec<u8>>, h: int, w: int) -> bool {
    exists|r: int, c: int|
        0 <= r <= h && 0 <= c <= w && #[trigger] mask_mixed_at(mask, h, w, r, c)
}

/// A labeling that preserves which pixels are background preserves the
/// mixedness of every vertex neighborhood, and hence whether the raster
/// shows a boundary at all.
proof fn lemma_mask_mixed_equiv(mask: Seq<Vec<u8>>, labels: Seq<Vec<u32>>, h: int, w: int)
    requires
        mask.len() == h,
        labels.len() == h,
        forall|i: int| 0 <= i < h ==> (#[trigger] mask[i])@.len() == w,
        forall|i: int| 0 <= i < h ==> (#[trigger] labels[i])@.len() == w,
        forall|rr: int, cc: int|
            0 <= rr < h && 0 <= cc < w ==> ((mask[rr]@[cc] == 0) <==> ((#[trigger] labels[rr]@[cc])
                == 0)),
    ensures
        forall|r: int, c: int|
            0 <= r <= h && 0 <= c <= w ==> ((#[trigger] mixed_at(labels, h, w, r, c))
                <==> mask_mixed_at(mask, h, w, r, c)),
        has_mixed_vertex(labels, h, w) <==> mask_has_mixed_vertex(mask, h, w),
{
    assert forall|r: int, c: int|
        0 <= r <= h && 0 <= c <= w implies ((#[trigger] mixed_at(labels, h, w, r, c))
        <==> mask_mixed_at(mask, h, w, r, c)) by {
        assert((lab(labels, h, w, r - 1, c - 1) == 0) <==> (mask_lab(mask, h, w, r - 1, c - 1)
            == 0));
        assert((lab(labels, h, w, r, c - 1) == 0) <==> (mask_lab(mask, h, w, r, c - 1) == 0));
        assert((lab(labels, h, w, r - 1, c) == 0) <==> (mask_lab(mask, h, w, r - 1, c) == 0));
        assert((lab(labels, h, w, r, c) == 0) <==> (mask_lab(mask, h, w, r, c) == 0));
    }
    if has_mixed_vertex(labels, h, w) {
        let (r, c): (int, int) = choose|r: int, c: int|
            0 <= r <= h && 0 <= c <= w && #[trigger] mixed_at(labels, h, w, r, c);
        assert(mask_mixed_at(mask, h, w, r, c));
    }
    if mask_has_mixed_vertex(mask, h, w) {
        let (r, c): (int, int) = choose|r: int, c: int|
            0 <= r <= h && 0 <= c <= w && #[trigger] mask_mixed_at(mask, h, w, r, c);
        assert(mixed_at(labels, h, w, r, c));
    }
}

/// Some pixel of the mask is background, or the mask has no pixels at
/// all.  The labeler needs one background pixel to keep its label count
/// below the pixel count.
pub open spec fn mask_has_background(mask: Seq<Vec<u8>>) -> bool {
    ||| mask.len() == 0
    ||| mask_width(mask) == 0
    ||| exists|r: int, c: int|
        0 <= r < mask.len() && 0 <= c < mask_width(mask) && #[trigger] mask[r]@[c] == 0
}

/// The width shared by every raster row.
pub open spec fn raster_width(labels: Seq<Vec<u32>>) -> int {
    if labels.len() > 0 {
        labels[0]@.len() as int
    } else {
        0
    }
}

/// The side midpoint `s` of the cell at vertex `(r, c)`, as its unique
/// key and its doubled-coordinate point: side 0 is left of the vertex,
/// side 1 above, side 2 right, side 3 below.
fn side(r: usize, c: usize, lin: i64, s: usize) -> (res: (i64, Point2))
    requires
        r <= 4000,
        c <= 4000,
        2 <= lin <= 8002,
        s < 4,
    ensures
        res.1.in_bounds(),
        (res.1.x % 2 == 0) != (res.1.y % 2 == 0),
        2 * (c as int) - 1 <= res.1.x <= 2 * (c as int) + 1,
        2 * (r as int) - 1 <= res.1.y <= 2 * (r as int) + 1,
{
    let ri = r as i64;
    let ci = c as i64;
    proof {
        crate::arith::lemma_mul_bounds(2 * ri as int + 1, lin as int, 8001, 8002);
        crate::arith::lemma_mul_bounds(2 * ri as int, lin as int, 8000, 8002);
        crate::arith::lemma_mul_bounds(2 * ri as int - 1, lin as int, 8001, 8002);
    }
    if s == 0 {
        ((2 * ri) * lin + (2 * ci - 1), Point2 { x: 2 * ci - 1, y: 2 * ri })
    } else if s == 1 {
        ((2 * ri - 1) * lin + 2 * ci, Point2 { x: 2 * ci, y: 2 * ri - 1 })
    } else if s == 2 {
        ((2 * ri) * lin + (2 * ci + 1), Point2 { x: 2 * ci + 1, y: 2 * ri })
    } else {
        ((2 * ri + 1) * lin + 2 * ci, Point2 { x: 2 * ci, y: 2 * ri + 1 })
    }
}

/// Assembles one component's accumulated segments into a boundary: the
/// keys become dense indices, each segment sets one successor and one
/// predecessor, and the resulting maps must close into cycles.  A segment
/// endpoint missing from the point store, or maps that fail to close, are
/// a fatal inconsistency.
fn build_boundary(comp: &CompData) -> (r: Result<Boundary2d, SkelError>)
    requires
        comp.keys@.len() == comp.pts@.len(),
        forall|pi: int| 0 <= pi < comp.pts@.len() ==> (#[trigger] comp.pts@[pi]).in_bounds(),
    ensures
        match r {
            Ok(b) => b.wf() && b.points@ == comp.pts@,
            Err(e) => e == SkelError::IndexInconsistency,
        },
        comp.pts@.len() == 0 && comp.edges@.len() == 0 ==> r.is_ok(),
{
    let n = comp.pts.len();
    let mut nxt: Vec<usize> = Vec::new();
    let mut prv: Vec<usize> = Vec::new();
    let mut z: usize = 0;
    while z < n
        invariant
            0 <= z <= n,
            nxt@.len() == z,
            prv@.len() == z,
            forall|q: int| 0 <= q < z ==> (#[trigger] nxt@[q]) == 0,
            forall|q: int| 0 <= q < z ==> (#[trigger] prv@[q]) == 0,
        decreases n - z,
    {
        nxt.push(0);
        prv.push(0);
        z = z + 1;
    }
    let mut e: usize = 0;
    while e < comp.edges.len()
        invariant
            0 <= e <= comp.edges@.len(),
            nxt@.len() == n,
            prv@.len() == n,
            n == comp.pts@.len(),
            comp.keys@.len() == n,
            forall|q: int| 0 <= q < n ==> (#[trigger] nxt@[q]) < n || nxt@[q] == 0,
            forall|q: int| 0 <= q < n ==> (#[trigger] prv@[q]) < n || prv@[q] == 0,
        decreases comp.edges@.len() - e,
    {
        let (a, b) = comp.edges[e];
        let ia = match key_index(&comp.keys, a) {
            Some(i) => i,
            None => {
                return Err(SkelError::IndexInconsistency);
            },
        };
        let ib = match key_index(&comp.keys, b) {
            Some(i) => i,
            None => {
                return Err(SkelError::IndexInconsistency);
            },
        };
        nxt.set(ia, ib);
        prv.set(ib, ia);
        e = e + 1;
    }
    let points = crate::skeleton2d::copy_vec(&comp.pts);
    if !crate::skeleton2d::check_cycles(&points, &nxt, &prv) {
        return Err(SkelError::IndexInconsistency);
    }
    Ok(Boundary2d { points, next_neighbor: nxt, prev_neighbor: prv })
}

/// The label of the pixel at `(row r, column c)`, 0 outside the raster.
pub open spec fn lab(labels: Seq<Vec<u32>>, h: int, w: int, r: int, c: int) -> u32 {
    if 0 <= r < h && 0 <= c < w {
        labels[r]@[c]
    } else {
        0
    }
}

/// The 2x2 neighborhood of vertex `(r, c)` is one the naive boundary
/// variant refuses to resolve: two diagonal corners carry one foreground
/// value while the other two corners are background.
pub open spec fn naive_ambiguous_at(labels: Seq<Vec<u32>>, h: int, w: int, r: int, c: int) -> bool {
    let val00 = lab(labels, h, w, r - 1, c - 1);
    let val01 = lab(labels, h, w, r - 1, c);
    let val10 = lab(labels, h, w, r, c - 1);
    let val11 = lab(labels, h, w, r, c);
    (val00 == val11 && val00 != 0 && val01 == 0 && val10 == 0) || (val10 == val01 && val10 != 0
        && val00 == 0 && val11 == 0)
}

/// Some vertex of the raster is ambiguous for the naive variant.
pub open spec fn naive_has_ambiguity(labels: Seq<Vec<u32>>, h: int, w: int) -> bool {
    exists|r: int, c: int| 0 <= r <= h && 0 <= c <= w && #[trigger] naive_ambiguous_at(labels, h, w, r, c)
}

/// A marching squares boundary point for an `h` x `w` raster: the
/// midpoint of a pixel side, in doubled coordinates — exactly one
/// coordinate odd — within the raster's vertex range.
pub open spec fn side_midpoint(p: Point2, h: int, w: int) -> bool {
    &&& (p.x % 2 == 0) != (p.y % 2 == 0)
    &&& -1 <= p.x <= 2 * w + 1
    &&& -1 <= p.y <= 2 * h + 1
}

/// A naive-variant boundary point for an `h` x `w` raster: a grid vertex
/// in doubled coordinates — both coordinates even — within the raster's
/// vertex range.
pub open spec fn vertex_point(p: Point2, h: int, w: int) -> bool {
    &&& p.x % 2 == 0 && p.y % 2 == 0
    &&& 0 <= p.x <= 2 * w
    &&& 0 <= p.y <= 2 * h
}

/// The 2x2 pixel neighborhood of vertex `(r, c)` is mixed: it holds a
/// foreground and a background corner, so the vertex scan emits at least
/// one boundary segment there (and none where it is uniform).
pub open spec fn mixed_at(labels: Seq<Vec<u32>>, h: int, w: int, r: int, c: int) -> bool {
    let val00 = lab(labels, h, w, r - 1, c - 1);
    let val01 = lab(labels, h, w, r, c - 1);
    let val10 = lab(labels, h, w, r - 1, c);
    let val11 = lab(labels, h, w, r, c);
    &&& !(val00 != 0 && val01 != 0 && val10 != 0 && val11 != 0)
    &&& !(val00 == 0 && val01 == 0 && val10 == 0 && val11 == 0)
}

/// Some vertex of the raster has a mixed neighborhood: the raster shows a
/// boundary at all.
pub open spec fn has_mixed_vertex(labels: Seq<Vec<u32>>, h: int, w: int) -> bool {
    exists|r: int, c: int| 0 <= r <= h && 0 <= c <= w && #[trigger] mixed_at(labels, h, w, r, c)
}

/// The marching squares scan at vertex `(r, c)` emits a segment keyed to
/// label `l`: the 2x2 neighborhood matches one of the fourteen mixed
/// configurations, and `l` is the label that configuration reads — the
/// single foreground corner, the first corner of a run, or, for the two
/// ambiguous opposite-corner configurations, the label shared by the
/// diagonal (resolved as two independent single-corner segments).
pub open spec fn emits_label_at(
    labels: Seq<Vec<u32>>,
    h: int,
    w: int,
    r: int,
    c: int,
    l: u32,
) -> bool {
    let val00 = lab(labels, h, w, r - 1, c - 1);
    let val01 = lab(labels, h, w, r, c - 1);
    let val10 = lab(labels, h, w, r - 1, c);
    let val11 = lab(labels, h, w, r, c);
    let v00 = val00 != 0;
    let v01 = val01 != 0;
    let v10 = val10 != 0;
    let v11 = val11 != 0;
    ||| (v00 && !v10 && !v11 && !v01 && l == val00)
    ||| (!v00 && v10 && !v11 && !v01 && l == val10)
    ||| (!v00 && !v10 && v11 && !v01 && l == val11)
    ||| (!v00 && !v10 && !v11 && v01 && l == val01)
    ||| (v00 && v10 && !v11 && !v01 && l == val00)
    ||| (!v00 && v10 && v11 && !v01 && l == val10)
    ||| (!v00 && !v10 && v11 && v01 && l == val11)
    ||| (v00 && !v10 && !v11 && v01 && l == val01)
    ||| (v00 && v10 && v11 && !v01 && l == val00)
    ||| (!v00 && v10 && v11 && v01 && l == val10)
    ||| (v00 && !v10 && v11 && v01 && l == val11)
    ||| (v00 && v10 && !v11 && v01 && l == val01)
    ||| (v00 && !v10 && v11 && !v01 && l == val00)
    ||| (!v00 && v10 && !v11 && v01 && l == val10)
}

/// Label `l` owns at least one boundary segment of the raster: some
/// vertex emits for it.
pub open spec fn label_emitted(labels: Seq<Vec<u32>>, h: int, w: int, l: u32) -> bool {
    exists|r: int, c: int|
        0 <= r <= h && 0 <= c <= w && #[trigger] emits_label_at(labels, h, w, r, c, l)
}

/// Vertex `(r, c)` comes before scan position `p` in row-major vertex
/// order (rows of `w + 2` slots).
pub open spec fn vertex_before(r: int, c: int, w: int, p: int) -> bool {
    r * (w + 2) + c < p
}

/// Label `l` owns an emitting vertex before scan position `p`.
pub open spec fn label_emitted_before(
    labels: Seq<Vec<u32>>,
    h: int,
    w: int,
    l: u32,
    p: int,
) -> bool {
    exists|r: int, c: int|
        0 <= r <= h && 0 <= c <= w && vertex_before(r, c, w, p) && #[trigger] emits_label_at(
            labels,
            h,
            w,
            r,
            c,
            l,
        )
}

/// Every collected label owns an emitting vertex before scan position
/// `p`.
pub open spec fn labels_sound_upto(
    labels: Seq<Vec<u32>>,
    h: int,
    w: int,
    ls: Seq<u32>,
    p: int,
) -> bool {
    forall|m: int|
        0 <= m < ls.len() ==> #[trigger] label_emitted_before(labels, h, w, ls[m], p)
}

/// Every label emitted before scan position `p` is collected.
pub open spec fn labels_complete_upto(
    labels: Seq<Vec<u32>>,
    h: int,
    w: int,
    ls: Seq<u32>,
    p: int,
) -> bool {
    forall|r: int, c: int, l: u32|
        0 <= r <= h && 0 <= c <= w && vertex_before(r, c, w, p) && #[trigger] emits_label_at(
            labels,
            h,
            w,
            r,
            c,
            l,
        ) ==> ls.contains(l)
}

/// An emitting vertex before one position is before every later one.
proof fn lemma_emitted_before_mono(labels: Seq<Vec<u32>>, h: int, w: int, l: u32, p1: int, p2: int)
    requires
        label_emitted_before(labels, h, w, l, p1),
        p1 <= p2,
    ensures
        label_emitted_before(labels, h, w, l, p2),
{
    let (r0, c0): (int, int) = choose|r0: int, c0: int|
        0 <= r0 <= h && 0 <= c0 <= w && vertex_before(r0, c0, w, p1) && #[trigger] emits_label_at(
            labels,
            h,
            w,
            r0,
            c0,
            l,
        );
    assert(vertex_before(r0, c0, w, p2));
    assert(emits_label_at(labels, h, w, r0, c0, l));
}

/// Soundness carries forward to any later scan position.
proof fn lemma_sound_upto_mono(
    labels: Seq<Vec<u32>>,
    h: int,
    w: int,
    ls: Seq<u32>,
    p1: int,
    p2: int,
)
    requires
        labels_sound_upto(labels, h, w, ls, p1),
        p1 <= p2,
    ensures
        labels_sound_upto(labels, h, w, ls, p2),
{
    assert forall|m: int|
        0 <= m < ls.len() implies #[trigger] label_emitted_before(labels, h, w, ls[m], p2) by {
        assert(label_emitted_before(labels, h, w, ls[m], p1));
        lemma_emitted_before_mono(labels, h, w, ls[m], p1, p2);
    }
}

/// Two vertex coordinates with one scan position are one vertex.
proof fn lemma_vertex_pos_unique(r: int, c: int, vr: int, vc: int, w: int)
    requires
        0 <= c <= w,
        0 <= vc <= w,
        r * (w + 2) + c == vr * (w + 2) + vc,
    ensures
        r == vr && c == vc,
{
    if r > vr {
        assert(r * (w + 2) >= (vr + 1) * (w + 2)) by (nonlinear_arith)
            requires
                r >= vr + 1 && w + 2 > 0,
        ;
        assert((vr + 1) * (w + 2) == vr * (w + 2) + (w + 2)) by (nonlinear_arith);
    }
    if r < vr {
        assert(vr * (w + 2) >= (r + 1) * (w + 2)) by (nonlinear_arith)
            requires
                vr >= r + 1 && w + 2 > 0,
        ;
        assert((r + 1) * (w + 2) == r * (w + 2) + (w + 2)) by (nonlinear_arith);
    }
}

/// The sequence `ls` is a census of the raster's boundary-owning
/// components: one distinct nonzero label per extracted loop bundle,
/// exactly the labels for which some vertex emits a segment.
pub open spec fn component_label_census(
    labels: Seq<Vec<u32>>,
    h: int,
    w: int,
    ls: Seq<u32>,
    n_loops: int,
) -> bool {
    &&& ls.len() == n_loops
    &&& !ls.contains(0u32)
    &&& forall|m1: int, m2: int| 0 <= m1 < m2 < ls.len() ==> ls[m1] != ls[m2]
    &&& forall|m: int|
        0 <= m < ls.len() ==> #[trigger] label_emitted(labels, h, w, ls[m])
    &&& forall|l: u32| #[trigger] label_emitted(labels, h, w, l) ==> ls.contains(l)
}

/// Every component store holds at least one point: a store is created
/// only when its first segment arrives.
spec fn comps_nonempty(comps: Seq<CompData>) -> bool {
    forall|ci: int| 0 <= ci < comps.len() ==> (#[trigger] comps[ci]).pts@.len() > 0
}

/// Every point stored in the component stores is a side midpoint of the
/// raster.
spec fn comps_shape(comps: Seq<CompData>, h: int, w: int) -> bool {
    forall|ci: int, pi: int|
        0 <= ci < comps.len() && 0 <= pi < comps[ci].pts@.len() ==> side_midpoint(
            #[trigger] comps[ci].pts@[pi],
            h,
            w,
        )
}

/// The raster rows all have one width, within the supported size.
pub open spec fn raster_wf(labels: Seq<Vec<u32>>, h: int, w: int) -> bool {
    &&& labels.len() == h
    &&& 0 <= h <= 4000
    &&& 0 <= w <= 4000
    &&& forall|r: int| 0 <= r < h ==> (#[trigger] labels[r])@.len() == w
}

/// A chain that closes back on its first element follows the successor
/// map cyclically.
proof fn lemma_chain_wrap(bnd: Boundary2d, lp: Seq<usize>)
    requires
        lp.len() > 0,
        forall|k: int|
            0 <= k < lp.len() - 1 ==> bnd.next_neighbor@[#[trigger] lp[k] as int] == lp[k + 1],
        bnd.next_neighbor@[lp.last() as int] == lp[0],
    ensures
        forall|k: int|
            0 <= k < lp.len() ==> bnd.next_neighbor@[(#[trigger] lp[k]) as int] == lp[(k + 1) % (
            lp.len() as int)],
{
    assert forall|k: int|
        0 <= k < lp.len() implies bnd.next_neighbor@[(#[trigger] lp[k]) as int] == lp[(k + 1) % (
    lp.len() as int)] by {
        if k < lp.len() - 1 {
            vstd::arithmetic::div_mod::lemma_small_mod((k + 1) as nat, lp.len());
        } else {
            vstd::arithmetic::div_mod::lemma_mod_self_0(lp.len() as int);
        }
    }
}

/// Pushing onto a sequence keeps every element it contained, and makes it
/// contain the pushed element.
proof fn lemma_push_contains_usize(s: Seq<usize>, x: usize)
    ensures
        forall|y: usize| s.contains(y) ==> #[trigger] s.push(x).contains(y),
        s.push(x).contains(x),
{
    assert(s.push(x)[s.len() as int] == x);
    assert forall|y: usize| s.contains(y) implies #[trigger] s.push(x).contains(y) by {
        let idx = choose|idx: int| 0 <= idx < s.len() && s[idx] == y;
        assert(s.push(x)[idx] == y);
    }
}

} // verus!
