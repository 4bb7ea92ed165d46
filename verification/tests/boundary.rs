use compact_skel_2d::boundary2d::Boundary2d;
use compact_skel_2d::SkelError;

fn raster(rows: &[&[u32]]) -> Vec<Vec<u32>> {
    rows.iter().map(|r| r.to_vec()).collect()
}

#[test]
fn square_raster_gives_one_closed_loop() {
    let labels = raster(&[&[0, 0, 0, 0], &[0, 1, 1, 0], &[0, 1, 1, 0], &[0, 0, 0, 0]]);
    let bnds = Boundary2d::from_labels(&labels).unwrap();
    assert_eq!(bnds.len(), 1);
    let b = &bnds[0];
    let n = b.points.len();
    // a 2x2 pixel square has 8 boundary side midpoints
    assert_eq!(n, 8);
    assert_eq!(b.next_neighbor.len(), n);
    assert_eq!(b.prev_neighbor.len(), n);
    // the successor and predecessor maps are mutually inverse
    for i in 0..n {
        assert_eq!(b.prev_neighbor[b.next_neighbor[i]], i);
        assert_eq!(b.next_neighbor[b.prev_neighbor[i]], i);
    }
    // following `next` from any point returns to it after exactly n steps
    for start in 0..n {
        let mut cur = start;
        for step in 0..n {
            cur = b.next_neighbor[cur];
            if step + 1 < n {
                assert_ne!(cur, start);
            }
        }
        assert_eq!(cur, start);
    }
    // every point is a side midpoint: exactly one doubled coordinate odd
    for p in &b.points {
        assert_eq!((p.x % 2 != 0) as u32 + (p.y % 2 != 0) as u32, 1);
    }
}

#[test]
fn two_components_give_two_loops() {
    let labels = raster(&[
        &[1, 1, 0, 0, 2, 2],
        &[1, 1, 0, 0, 2, 2],
    ]);
    let bnds = Boundary2d::from_labels(&labels).unwrap();
    assert_eq!(bnds.len(), 2);
    for b in &bnds {
        assert_eq!(b.points.len(), 8);
        for i in 0..b.points.len() {
            assert_eq!(b.prev_neighbor[b.next_neighbor[i]], i);
        }
    }
}

#[test]
fn loops_pts_matches_loop_structure() {
    let labels = raster(&[&[0, 0, 0], &[0, 1, 0], &[0, 0, 0]]);
    let bnds = Boundary2d::from_labels(&labels).unwrap();
    assert_eq!(bnds.len(), 1);
    let loops = bnds[0].get_loops_pts();
    assert_eq!(loops.len(), 1);
    assert_eq!(loops[0].len(), bnds[0].points.len());
    assert_eq!(loops[0].len(), 4);
}

#[test]
fn empty_raster_gives_no_loops() {
    let labels = raster(&[&[0, 0], &[0, 0]]);
    let bnds = Boundary2d::from_labels(&labels).unwrap();
    assert_eq!(bnds.len(), 0);
}

#[test]
fn mask_labeling_separates_components() {
    // one mask value, two 8-connected components: the labeler must tell
    // them apart, giving two independent loops
    let mask: Vec<Vec<u8>> = vec![
        vec![0, 0, 0, 0, 0, 0, 0],
        vec![0, 255, 255, 0, 0, 255, 0],
        vec![0, 255, 255, 0, 0, 255, 0],
        vec![0, 0, 0, 0, 0, 0, 0],
    ];
    let bnds = Boundary2d::from_marching_squares(&mask).unwrap();
    assert_eq!(bnds.len(), 2);
}

#[test]
fn naive_variant_refuses_adjacent_corner_configurations() {
    // two equal foreground corners on one diagonal, background on the
    // other: the configuration the naive variant refuses to resolve
    let labels = raster(&[&[1, 0], &[0, 1]]);
    match Boundary2d::from_naive_labels(&labels) {
        Err(e) => assert_eq!(e, SkelError::AmbiguousTopology),
        Ok(_) => panic!("expected the ambiguous configuration to be refused"),
    }
}

#[test]
fn naive_variant_extracts_a_vertex_loop() {
    // a single foreground pixel: four grid-vertex boundary points in one
    // cycle, all coordinates even (vertices, not side midpoints)
    let labels = raster(&[&[7]]);
    let b = match Boundary2d::from_naive_labels(&labels) {
        Ok(b) => b,
        Err(_) => panic!("expected the single-pixel raster to succeed"),
    };
    assert_eq!(b.points.len(), 4);
    for i in 0..4 {
        assert_eq!(b.prev_neighbor[b.next_neighbor[i]], i);
        assert_eq!(b.points[i].x % 2, 0);
        assert_eq!(b.points[i].y % 2, 0);
    }
    // uniform rasters have no boundary at all
    let empty = raster(&[&[0, 0], &[0, 0]]);
    let be = match Boundary2d::from_naive_labels(&empty) {
        Ok(b) => b,
        Err(_) => panic!("expected the uniform raster to succeed"),
    };
    assert_eq!(be.points.len(), 0);
}

#[test]
fn naive_variant_on_a_mask() {
    let mask: Vec<Vec<u8>> = vec![vec![255, 0], vec![0, 0]];
    let b = match Boundary2d::from_naive_algorithm(&mask) {
        Ok(b) => b,
        Err(_) => panic!("expected the one-pixel mask to succeed"),
    };
    assert_eq!(b.points.len(), 4);
}
