use hyogen_ui::animator::Animator;
use hyogen_ui::geometry::Point;
use hyogen_ui::hvf::HVF;
use hyogen_ui::loader::{HVFLoader, HvfError, ResourceText};

fn point(x: i64, y: i64) -> Point {
    Point { x, y }
}

fn square_ring() -> HVF {
    HVF {
        values: vec![vec![point(0, 0), point(10, 0), point(10, 10), point(0, 10)]],
        len: 1,
    }
}

#[test]
fn fresh_animator_reports_empty_pose() {
    let animator = Animator::new(&square_ring(), 0);
    assert_eq!(animator.get_path(0), Vec::<Vec<Point>>::new());
    assert_eq!(animator.get_path(12345), Vec::<Vec<Point>>::new());
}

#[test]
fn morph_to_identical_square_is_identity() {
    // A square morphed to an identical square returns the
    // same square halfway through the transition.
    let square = square_ring();
    let mut animator = Animator::new(&square, 0);
    animator.animate(&square, 1000, 0);
    let frame = animator.get_path(500);
    assert_eq!(frame, vec![vec![
        point(0, 0),
        point(10, 0),
        point(10, 10),
        point(0, 10),
    ]]);
}

#[test]
fn pose_at_start_and_periodicity() {
    // Right after animate() the reported pose is the post-normalization
    // current pose, and one full duration later it is reported again.
    let square = square_ring();
    let target = HVF {
        values: vec![vec![point(0, 0), point(20, 0), point(20, 20), point(0, 20)]],
        len: 1,
    };
    let mut animator = Animator::new(&square, 0);
    animator.animate(&target, 400, 100);
    let at_start = animator.get_path(100);
    // equal-length, best-aligned inputs: normalization leaves the square
    assert_eq!(at_start, vec![vec![
        point(0, 0),
        point(10, 0),
        point(10, 10),
        point(0, 10),
    ]]);
    assert_eq!(animator.get_path(500), at_start);
    assert_eq!(animator.get_path(900), at_start);
    // and the written-back active pose starts the next transition
    assert_eq!(animator.active_ring.values[0].len(), 4);
}

#[test]
fn transition_interpolates_between_poses() {
    let square = square_ring();
    let target = HVF {
        values: vec![vec![point(0, 0), point(20, 0), point(20, 20), point(0, 20)]],
        len: 1,
    };
    let mut animator = Animator::new(&square, 0);
    animator.animate(&target, 1000, 0);
    let frame = animator.get_path(500);
    assert_eq!(frame, vec![vec![
        point(0, 0),
        point(15, 0),
        point(15, 15),
        point(0, 15),
    ]]);
}

#[test]
fn unequal_point_counts_are_normalized_in_flight() {
    // A 2-point current sub-path against a 4-point target: both end up
    // with 4 points and the frame at the start equals the resampled
    // current path.
    let current = HVF {
        values: vec![vec![point(0, 0), point(10, 0)]],
        len: 1,
    };
    let target = square_ring();
    let mut animator = Animator::new(&current, 0);
    animator.animate(&target, 1000, 0);
    let frame = animator.get_path(0);
    assert_eq!(frame.len(), 1);
    assert_eq!(frame[0].len(), 4);
    assert_eq!(animator.active_ring.values[0].len(), 4);
}

fn good_document() -> String {
    let mut s = String::new();
    s.push_str("{\"expression\": {");
    s.push_str("\"neutral\": [[[0, 0], [10, 0], [10.5, 7.25]]],");
    s.push_str("\"blink\": [[[0, 0], [10, 0], [10, 10], [0, 10]]]");
    s.push_str("}}");
    s
}

#[test]
fn loader_reads_catalog() {
    let loader = HVFLoader::new("faces.hvf", ResourceText::Text(good_document())).unwrap();
    let neutral = loader.get("expression", "neutral").unwrap();
    assert_eq!(neutral.len, 1);
    // coordinates arrive in milli-units
    assert_eq!(neutral.values[0], vec![
        point(0, 0),
        point(10000, 0),
        point(10500, 7250),
    ]);
    let blink = loader.get("expression", "blink").unwrap();
    assert_eq!(blink.values[0].len(), 4);
}

#[test]
fn loader_lookup_misses_return_none() {
    let loader = HVFLoader::new("faces.hvf", ResourceText::Text(good_document())).unwrap();
    assert!(loader.get("expression", "smile").is_none());
    assert!(loader.get("gesture", "neutral").is_none());
}

#[test]
fn loader_missing_file_is_invalid_path() {
    // A nonexistent path yields InvalidPath.
    let r = HVFLoader::new("faces.hvf", ResourceText::Missing);
    assert_eq!(r.unwrap_err(), HvfError::InvalidPath);
}

#[test]
fn loader_wrong_extension_is_invalid_format() {
    // A file without the required extension yields InvalidFormat,
    // whatever its content.
    let r = HVFLoader::new("faces.json", ResourceText::Text(good_document()));
    assert_eq!(r.unwrap_err(), HvfError::InvalidFormat);
}

#[test]
fn loader_non_array_leaf_is_parse_error() {
    // A leaf that is not an array of [x, y] number pairs yields
    // ParseError.
    let doc = "{\"expression\": {\"neutral\": [[[0, 0], 42]]}}";
    let r = HVFLoader::new("faces.hvf", ResourceText::Text(doc.to_string()));
    assert_eq!(r.unwrap_err(), HvfError::ParseError);
}

#[test]
fn loader_malformed_document_is_parse_error() {
    let r = HVFLoader::new("faces.hvf", ResourceText::Text("not json".to_string()));
    assert_eq!(r.unwrap_err(), HvfError::ParseError);
    let r = HVFLoader::new("faces.hvf", ResourceText::Text("[1, 2]".to_string()));
    assert_eq!(r.unwrap_err(), HvfError::ParseError);
    let r = HVFLoader::new("faces.hvf", ResourceText::Unreadable);
    assert_eq!(r.unwrap_err(), HvfError::ParseError);
}

#[test]
fn loader_rejects_degenerate_sub_paths() {
    // all points coincident: would make resampling diverge, rejected at
    // load time
    let doc = "{\"expression\": {\"neutral\": [[[1, 1], [1, 1]]]}}";
    let r = HVFLoader::new("faces.hvf", ResourceText::Text(doc.to_string()));
    assert_eq!(r.unwrap_err(), HvfError::ParseError);
    // a single-point sub-path
    let doc = "{\"expression\": {\"neutral\": [[[1, 1]]]}}";
    let r = HVFLoader::new("faces.hvf", ResourceText::Text(doc.to_string()));
    assert_eq!(r.unwrap_err(), HvfError::ParseError);
    // a pair with more than two coordinates
    let doc = "{\"expression\": {\"neutral\": [[[1, 1, 1], [2, 2, 2]]]}}";
    let r = HVFLoader::new("faces.hvf", ResourceText::Text(doc.to_string()));
    assert_eq!(r.unwrap_err(), HvfError::ParseError);
}

#[test]
fn loaded_pose_animates_end_to_end() {
    let loader = HVFLoader::new("faces.hvf", ResourceText::Text(good_document())).unwrap();
    let neutral = loader.get("expression", "neutral").unwrap();
    let blink = loader.get("expression", "blink").unwrap();
    let mut animator = Animator::new(neutral, 0);
    animator.animate(blink, 1400, 0);
    let frame = animator.get_path(700);
    assert_eq!(frame.len(), 1);
    assert_eq!(frame[0].len(), 4);
    // periodic: the same frame a full loop later
    assert_eq!(animator.get_path(2100), frame);
}
