use hyogen_ui::animator::Animator;
use hyogen_ui::geometry::Point;
use hyogen_ui::hvf::HVF;
use hyogen_ui::interpolator::Interpolator;
use hyogen_ui::text::{is_hvf_file, parse_coord, str_eq};

fn pt(x: i64, y: i64) -> Point {
    Point { x, y }
}

fn square10() -> Vec<Point> {
    vec![pt(0, 0), pt(10, 0), pt(10, 10), pt(0, 10)]
}

fn test_animator() -> Animator {
    let ring = HVF {
        values: vec![square10()],
        len: 1,
    };
    Animator::new(&ring, 0)
}

#[test]
fn path_len_square() {
    let a = test_animator();
    assert_eq!(a.get_path_len(&square10()), 40);
}

#[test]
fn path_len_invariant_under_rotation() {
    // Every cyclic rotation of the start index
    // leaves the closed length unchanged.
    let a = test_animator();
    let path = vec![pt(0, 0), pt(7, 1), pt(12, 9), pt(3, 14), pt(-2, 6)];
    let base = a.get_path_len(&path);
    for k in 1..path.len() {
        let mut rotated: Vec<Point> = Vec::new();
        for i in 0..path.len() {
            rotated.push(path[(i + k) % path.len()]);
        }
        assert_eq!(a.get_path_len(&rotated), base);
    }
}

#[test]
fn distance_exact_and_rounded() {
    let a = test_animator();
    assert_eq!(a.get_distance(&pt(0, 0), &pt(3, 4)), 5);
    // sqrt(2) rounds down to 1
    assert_eq!(a.get_distance(&pt(0, 0), &pt(1, 1)), 1);
    assert_eq!(a.get_distance(&pt(5, 5), &pt(5, 5)), 0);
}

#[test]
fn add_points_two_point_path() {
    // A 2-point segment resampled up to four points gains the
    // arc-midpoints of its two edges, originals kept in order.
    let a = test_animator();
    let mut path = vec![pt(0, 0), pt(10, 0)];
    a.add_points(&mut path, 2);
    assert_eq!(path.len(), 4);
    assert_eq!(path, vec![pt(5, 0), pt(0, 0), pt(5, 0), pt(10, 0)]);
}

/// Arc-length position of a point lying on an edge of the closed path.
fn arc_pos(path: &[Point], p: Point) -> f64 {
    let mut cum = 0.0_f64;
    for i in 0..path.len() {
        let a = path[i];
        let b = path[(i + 1) % path.len()];
        let (ex, ey) = ((b.x - a.x) as f64, (b.y - a.y) as f64);
        let (px, py) = ((p.x - a.x) as f64, (p.y - a.y) as f64);
        let len = (ex * ex + ey * ey).sqrt();
        let along = (px * px + py * py).sqrt();
        let cross = ex * py - ey * px;
        let dot = ex * px + ey * py;
        if cross.abs() < 1e-9 && dot >= 0.0 && along <= len + 1e-9 {
            return cum + along;
        }
        cum += len;
    }
    panic!("point not on path");
}

#[test]
fn add_points_keeps_originals_and_spacing() {
    // Length grows by `size`, originals stay in
    // order, and the mean arc spacing of consecutive inserted points is
    // about total_length / size.
    let a = test_animator();
    let original = vec![pt(0, 0), pt(30, 0), pt(30, 40)];
    let mut path = original.clone();
    a.add_points(&mut path, 3);
    assert_eq!(path.len(), original.len() + 3);
    // originals appear in order
    let mut oi = 0;
    for p in &path {
        if oi < original.len() && *p == original[oi] {
            oi += 1;
        }
    }
    assert_eq!(oi, original.len());
    // the inserted points sit at evenly spaced arc positions
    let inserted: Vec<Point> = vec![path[0], path[2], path[4]];
    assert_eq!(inserted, vec![pt(20, 0), pt(30, 30), pt(12, 16)]);
    let total_len = 120.0_f64;
    let mut arcs: Vec<f64> = inserted.iter().map(|p| arc_pos(&original, *p)).collect();
    arcs.sort_by(|x, y| x.partial_cmp(y).unwrap());
    let mut gap_sum = 0.0_f64;
    for i in 0..arcs.len() {
        let next = if i + 1 == arcs.len() {
            arcs[0] + total_len
        } else {
            arcs[i + 1]
        };
        gap_sum += next - arcs[i];
    }
    let mean = gap_sum / 3.0;
    let expected = total_len / 3.0;
    assert!((mean - expected).abs() < 0.01 * expected);
}

#[test]
fn offset_path_follows_cycles() {
    // 6 points rotated by 2: gcd(2, 6) = 2 disjoint cycles.
    let a = test_animator();
    let path = vec![pt(0, 0), pt(1, 0), pt(2, 0), pt(3, 0), pt(4, 0), pt(5, 0)];
    let mut rotated = path.clone();
    a.offset_path(&mut rotated, 6, 2);
    for i in 0..6 {
        assert_eq!(rotated[i], path[(i + 2) % 6]);
    }
}

#[test]
fn offset_path_wraps_offset() {
    let a = test_animator();
    let path = vec![pt(1, 1), pt(2, 2), pt(3, 3)];
    let mut rotated = path.clone();
    a.offset_path(&mut rotated, 3, 7); // 7 mod 3 == 1
    assert_eq!(rotated, vec![pt(2, 2), pt(3, 3), pt(1, 1)]);
}

#[test]
fn rotate_identical_paths_is_identity() {
    // Identical paths align at offset zero with zero cost, so nothing
    // moves.
    let a = test_animator();
    let target = square10();
    let mut path = square10();
    a.rotate(&mut path, &target);
    assert_eq!(path, target);
}

#[test]
fn rotate_aligns_shifted_path() {
    // A cyclically shifted copy aligns back onto the target exactly; the
    // chosen rotation reaches cost zero, never more than offset zero's.
    let a = test_animator();
    let target = square10();
    let mut path = vec![target[1], target[2], target[3], target[0]];
    a.rotate(&mut path, &target);
    assert_eq!(path, target);
}

#[test]
fn normalize_equalizes_lengths() {
    // After normalization both sub-paths have the larger of the two
    // point counts.
    let a = test_animator();
    let mut current = vec![pt(0, 0), pt(10, 0)];
    let mut target = vec![pt(0, 0), pt(8, 0), pt(8, 8), pt(4, 12), pt(0, 8)];
    a.normalize(&mut current, &mut target);
    assert_eq!(current.len(), 5);
    assert_eq!(target.len(), 5);
}

#[test]
fn interpolate_endpoints() {
    // Fraction 0 gives the current path, fraction 1 the target path,
    // pointwise.
    let current = vec![pt(0, 0), pt(10, 0), pt(10, 10)];
    let target = vec![pt(2, 1), pt(9, 3), pt(-4, 7)];
    let ip = Interpolator::new(current.clone(), target.clone());
    assert_eq!(ip.interpolate(0, 1000), current);
    assert_eq!(ip.interpolate(1000, 1000), target);
}

#[test]
fn interpolate_midpoint() {
    let current = vec![pt(0, 0), pt(10, 0)];
    let target = vec![pt(0, 10), pt(0, 0)];
    let ip = Interpolator::new(current, target);
    assert_eq!(ip.interpolate(500, 1000), vec![pt(0, 5), pt(5, 0)]);
}

#[test]
fn parse_coord_values() {
    assert_eq!(parse_coord("0"), Some(0));
    assert_eq!(parse_coord("10"), Some(10000));
    assert_eq!(parse_coord("10.5"), Some(10500));
    assert_eq!(parse_coord("-3.25"), Some(-3250));
    assert_eq!(parse_coord("0.0005"), Some(0));
    assert_eq!(parse_coord("1048.576"), Some(1048576));
}

#[test]
fn parse_coord_rejections() {
    assert_eq!(parse_coord(""), None);
    assert_eq!(parse_coord("-"), None);
    assert_eq!(parse_coord("12."), None);
    assert_eq!(parse_coord(".5"), None);
    assert_eq!(parse_coord("1e3"), None);
    assert_eq!(parse_coord("12a"), None);
    assert_eq!(parse_coord("1.2.3"), None);
    // magnitude beyond the coordinate range
    assert_eq!(parse_coord("1048.577"), None);
    assert_eq!(parse_coord("99999999999999999999"), None);
}

#[test]
fn hvf_extension_rule() {
    assert!(is_hvf_file("a/b.hvf"));
    assert!(is_hvf_file("b.hvf"));
    assert!(!is_hvf_file(".hvf"));
    assert!(!is_hvf_file("a/.hvf"));
    assert!(!is_hvf_file("b.txt"));
    assert!(!is_hvf_file("hvf"));
    assert!(!is_hvf_file("a.hvf.txt"));
}

#[test]
fn str_eq_cases() {
    assert!(str_eq("", ""));
    assert!(str_eq("abc", "abc"));
    assert!(!str_eq("abc", "abd"));
    assert!(!str_eq("abc", "ab"));
}
