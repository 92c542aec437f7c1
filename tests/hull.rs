use algokit::conv::{ChangeOutcome, ConvexHull, Point};

fn pt(x: i32, y: i32) -> Point {
    Point::new(x, y)
}

fn coords(h: &ConvexHull) -> Vec<(i32, i32)> {
    h.vertices().iter().map(|p| (p.x, p.y)).collect()
}

/// Sum of the lengths of the cyclic edges (a two-vertex hull counts its edge twice).
fn edge_sum(h: &ConvexHull) -> f64 {
    let v = h.vertices();
    let n = v.len();
    if n < 2 {
        return 0.0;
    }
    let mut s = 0.0;
    for i in 0..n {
        let a = v[i];
        let b = v[(i + 1) % n];
        let dx = (b.x - a.x) as f64;
        let dy = (b.y - a.y) as f64;
        s += (dx * dx + dy * dy).sqrt();
    }
    s
}

fn shoelace_area(h: &ConvexHull) -> f64 {
    let v = h.vertices();
    let n = v.len();
    let mut s = 0i128;
    for i in 0..n {
        let a = v[i];
        let b = v[(i + 1) % n];
        s += a.x as i128 * b.y as i128 - b.x as i128 * a.y as i128;
    }
    s as f64 / 2.0
}

fn same_cycle(got: &[(i32, i32)], want: &[(i32, i32)]) -> bool {
    if got.len() != want.len() {
        return false;
    }
    let n = got.len();
    (0..n.max(1)).any(|r| (0..n).all(|i| got[(i + r) % n] == want[i]))
}

fn build(points: &[(i32, i32)]) -> ConvexHull {
    let mut h = ConvexHull::new();
    for &(x, y) in points {
        h.add_point(pt(x, y));
    }
    h
}

fn close(a: f64, b: f64) -> bool {
    (a - b).abs() < 1e-9
}

#[test]
fn single_point_hull() {
    let mut h = ConvexHull::new();
    assert_eq!(h.add_point(pt(0, 0)), ChangeOutcome::Grew);
    assert_eq!(coords(&h), vec![(0, 0)]);
    assert_eq!(edge_sum(&h), 0.0);
    assert_eq!(h.twice_area(), 0);
}

#[test]
fn two_point_hull() {
    let h = build(&[(0, 0), (1, 0)]);
    let c = coords(&h);
    assert!(c == vec![(0, 0), (1, 0)] || c == vec![(1, 0), (0, 0)]);
    assert!(close(edge_sum(&h), 2.0));
    assert_eq!(h.twice_area(), 0);
}

#[test]
fn triangle_hull() {
    let h = build(&[(0, 0), (1, 0), (1, 1)]);
    assert_eq!(h.vertices().len(), 3);
    assert!(close(edge_sum(&h), 2.0 + 2f64.sqrt()));
    assert!((edge_sum(&h) - 3.41421).abs() < 1e-5);
    assert_eq!(h.twice_area(), 1);
    assert!(same_cycle(&coords(&h), &[(1, 0), (1, 1), (0, 0)]));
}

#[test]
fn unit_square_hull() {
    let h = build(&[(0, 0), (1, 0), (1, 1), (0, 1)]);
    assert!(same_cycle(&coords(&h), &[(0, 0), (1, 0), (1, 1), (0, 1)]));
    assert!(close(edge_sum(&h), 4.0));
    assert_eq!(h.twice_area(), 2);
}

#[test]
fn interior_point_leaves_square() {
    // The unit square scaled by two, so that its centre has integer coordinates.
    let mut h = build(&[(0, 0), (2, 0), (2, 2), (0, 2)]);
    let before = coords(&h);
    assert_eq!(h.add_point(pt(1, 1)), ChangeOutcome::UnchangedInterior);
    assert_eq!(coords(&h), before);
    assert!(close(edge_sum(&h), 8.0));
    assert_eq!(h.twice_area(), 8);
}

#[test]
fn outer_point_drops_corner() {
    let mut h = build(&[(0, 0), (1, 0), (1, 1), (0, 1)]);
    assert_eq!(h.add_point(pt(2, 2)), ChangeOutcome::Grew);
    let c = coords(&h);
    assert!(same_cycle(&c, &[(0, 0), (1, 0), (2, 2), (0, 1)]));
    assert!(!c.contains(&(1, 1)));
    assert!(close(edge_sum(&h), 2.0 + 2.0 * 5f64.sqrt()));
    assert_eq!(h.twice_area(), 4);
    assert!(close(shoelace_area(&h), 2.0));
}

#[test]
fn duplicate_of_single_point() {
    let mut h = build(&[(3, 4)]);
    assert_eq!(h.add_point(pt(3, 4)), ChangeOutcome::UnchangedDuplicate);
    assert_eq!(coords(&h), vec![(3, 4)]);
}

#[test]
fn point_on_segment_is_interior() {
    let mut h = build(&[(0, 0), (4, 0)]);
    let before = coords(&h);
    assert_eq!(h.add_point(pt(2, 0)), ChangeOutcome::UnchangedInterior);
    assert_eq!(h.add_point(pt(4, 0)), ChangeOutcome::UnchangedInterior);
    assert_eq!(coords(&h), before);
}

#[test]
fn collinear_point_extends_segment() {
    let mut h = build(&[(0, 0), (1, 0)]);
    assert_eq!(h.add_point(pt(3, 0)), ChangeOutcome::ExtendedDegenerate);
    assert_eq!(coords(&h), vec![(0, 0), (3, 0)]);
    assert!(close(edge_sum(&h), 6.0));
    assert_eq!(h.add_point(pt(-2, 0)), ChangeOutcome::ExtendedDegenerate);
    assert_eq!(coords(&h), vec![(3, 0), (-2, 0)]);
    assert_eq!(h.twice_area(), 0);
}

#[test]
fn point_far_away_drops_several_vertices() {
    let mut h = build(&[(0, 0), (4, 0), (5, 2), (4, 4), (0, 4), (-1, 2)]);
    assert_eq!(h.vertices().len(), 6);
    assert_eq!(h.add_point(pt(20, 2)), ChangeOutcome::Grew);
    assert!(same_cycle(&coords(&h), &[(0, 0), (4, 0), (20, 2), (4, 4), (0, 4), (-1, 2)]));
    assert!(!coords(&h).contains(&(5, 2)));
    assert!(close(shoelace_area(&h), h.twice_area() as f64 / 2.0));
}

#[test]
fn reinserting_vertices_changes_nothing() {
    let pts = [(0, 0), (5, 0), (6, 3), (2, 6), (-1, 3), (2, 2), (3, 1)];
    let mut h = build(&pts);
    let before = coords(&h);
    let area = h.twice_area();
    for &(x, y) in &pts {
        let r = h.add_point(pt(x, y));
        assert_eq!(r, ChangeOutcome::UnchangedInterior);
        assert_eq!(coords(&h), before);
        assert_eq!(h.twice_area(), area);
    }
}

#[test]
fn order_of_insertion_does_not_matter() {
    let a = [(0, 0), (5, 0), (6, 3), (2, 6), (-1, 3), (2, 2), (3, 1), (7, 7)];
    let mut b = a;
    b.reverse();
    let mut c = a;
    c.rotate_left(3);
    let ha = build(&a);
    let hb = build(&b);
    let hc = build(&c);
    let mut va = coords(&ha);
    let mut vb = coords(&hb);
    let mut vc = coords(&hc);
    assert!(same_cycle(&va, &vb));
    assert!(same_cycle(&va, &vc));
    va.sort();
    vb.sort();
    vc.sort();
    assert_eq!(va, vec![(-1, 3), (0, 0), (2, 6), (5, 0), (6, 3), (7, 7)]);
    assert_eq!(va, vb);
    assert_eq!(va, vc);
    assert_eq!(ha.twice_area(), hb.twice_area());
    assert_eq!(ha.twice_area(), hc.twice_area());
    assert!(close(edge_sum(&ha), edge_sum(&hb)));
}

#[test]
fn every_corner_turns_left() {
    let pts = [(0, 0), (9, 1), (4, 7), (-3, 5), (2, -4), (8, 8), (1, 1), (-5, -2), (6, -3)];
    let mut h = ConvexHull::new();
    for &(x, y) in &pts {
        h.add_point(pt(x, y));
        let v = h.vertices();
        let n = v.len();
        if n >= 3 {
            for i in 0..n {
                let a = v[i];
                let b = v[(i + 1) % n];
                let c = v[(i + 2) % n];
                let cr = (b.x - a.x) as i64 * (c.y - a.y) as i64 - (b.y - a.y) as i64 * (c.x - a.x) as i64;
                assert!(cr > 0);
            }
            assert!(h.twice_area() > 0);
        }
        assert!(close(shoelace_area(&h), h.twice_area() as f64 / 2.0));
        assert_eq!(h.twice_area(), h.twice_area_from_vertices());
    }
}

#[test]
fn kept_area_matches_shoelace_after_each_insertion() {
    let mut h = ConvexHull::new();
    let mut seed: i64 = 12345;
    for _ in 0..300 {
        seed = (seed * 1103515245 + 12345) % 2147483648;
        let x = (seed % 2001 - 1000) as i32;
        seed = (seed * 1103515245 + 12345) % 2147483648;
        let y = (seed % 2001 - 1000) as i32;
        h.add_point(pt(x, y));
        assert_eq!(h.twice_area(), h.twice_area_from_vertices());
        assert!(close(shoelace_area(&h), h.twice_area() as f64 / 2.0));
    }
    assert!(h.vertices().len() >= 3);
}

#[test]
fn hull_matches_gift_wrapping() {
    let pts = [(0, 0), (9, 1), (4, 7), (-3, 5), (2, -4), (8, 8), (1, 1), (-5, -2), (6, -3), (3, 3)];
    let h = build(&pts);
    let mut got = coords(&h);
    got.sort();
    // Hull by gift wrapping: a point is a vertex when some line through it has
    // every other point strictly on one side.
    let mut want = vec![];
    for (i, &p) in pts.iter().enumerate() {
        for (j, &q) in pts.iter().enumerate() {
            if i == j {
                continue;
            }
            let ok = pts.iter().all(|&r| {
                if r == p || r == q {
                    return true;
                }
                let cr = (q.0 - p.0) as i64 * (r.1 - p.1) as i64 - (q.1 - p.1) as i64 * (r.0 - p.0) as i64;
                cr > 0
            });
            if ok && !want.contains(&p) {
                want.push(p);
            }
        }
    }
    want.sort();
    assert_eq!(got, want);
}

#[test]
fn largest_coordinates_do_not_overflow() {
    let m = i32::MAX;
    let n = i32::MIN;
    let h = build(&[(n, n), (m, n), (m, m), (n, m)]);
    assert_eq!(h.vertices().len(), 4);
    let side = m as i128 - n as i128;
    assert_eq!(h.twice_area(), 2 * side * side);
}
