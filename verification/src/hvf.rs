//! The pose resource model: one pose is an ordered collection of closed
//! sub-paths, each an ordered sequence of points.

use vstd::prelude::*;
use crate::geometry::{
    Point, MAX_COORD, MAX_PATH_POINTS, closed_len, dist, dist_sq, edge_dist, edge_sum,
    lemma_dist_sq_nonneg, lemma_edge_sum_split, lemma_sqrt_pos, valid_path,
};
use crate::jsonio::{number_string, value_as_array};
use crate::loader::HvfError;
use crate::text::parse_coord;

verus! {

/// One pose: an ordered collection of closed sub-paths.
///
/// `values` is the point data; `len` caches the sub-path count. A pose
/// used for animation satisfies [`HVF::wf`]: every sub-path has at least
/// two points, at most [`MAX_PATH_POINTS`], coordinates in range, and at
/// least two distinct points (so its closed length is positive).
#[derive(Debug)]
pub struct HVF {
    pub values: Vec<Vec<Point>>,
    pub len: usize,
}

/// A sub-path acceptable for animation.
pub open spec fn wf_subpath(s: Seq<Point>) -> bool {
    &&& 2 <= s.len() <= MAX_PATH_POINTS
    &&& valid_path(s)
    &&& exists|i: int| 0 <= i < s.len() && #[trigger] s[i] != s[0]
}

impl HVF {
    /// The pose as a sequence of point sequences.
    pub open spec fn spec_values(self) -> Seq<Seq<Point>> {
        self.values@.map_values(|p: Vec<Point>| p@)
    }

    /// Well-formed pose: consistent count, every sub-path acceptable.
    pub open spec fn wf(self) -> bool {
        &&& self.len == self.values@.len()
        &&& forall|i: int|
            0 <= i < self.spec_values().len() ==> wf_subpath(#[trigger] self.spec_values()[i])
    }

    /// The ordered sub-paths of this pose.
    pub fn values(&self) -> (r: &Vec<Vec<Point>>)
        ensures
            r == &self.values,
    {
        &self.values
    }

    /// Builds one pose from parsed JSON sub-paths. Each sub-path must be
    /// an array of two-number `[x, y]` pairs, have at least two points,
    /// at most [`MAX_PATH_POINTS`], coordinates in range, and not all
    /// points coincident; anything else is a parse failure.
    pub fn new(value: &Vec<serde_json::Value>) -> (r: Result<HVF, HvfError>)
        ensures
            r matches Ok(h) ==> h.wf() && h.len == value@.len(),
    {
        let sub_paths = value.len();
        let mut values: Vec<Vec<Point>> = Vec::new();
        let mut i: usize = 0;
        while i < sub_paths
            invariant
                i <= sub_paths,
                sub_paths == value@.len(),
                values@.len() == i,
                forall|j: int| 0 <= j < i as int ==> wf_subpath((#[trigger] values@[j])@),
            decreases sub_paths - i,
        {
            let arr = match value_as_array(&value[i]) {
                Some(a) => a,
                None => {
                    return Err(HvfError::ParseError);
                },
            };
            let path = match Self::convert_to_vec_of_vec(arr) {
                Ok(p) => p,
                Err(e) => {
                    return Err(e);
                },
            };
            if !check_subpath(&path) {
                return Err(HvfError::ParseError);
            }
            values.push(path);
            i += 1;
        }
        let h = HVF { values, len: sub_paths };
        proof {
            assert forall|j: int| 0 <= j < h.spec_values().len() implies wf_subpath(
                #[trigger] h.spec_values()[j],
            ) by {
                assert(h.spec_values()[j] == h.values@[j]@);
            }
        }
        Ok(h)
    }

    /// Converts one sub-path's JSON points into plain points: each leaf
    /// must be an array of exactly two numbers whose values fit the
    /// coordinate range.
    fn convert_to_vec_of_vec(values: &Vec<serde_json::Value>) -> (r: Result<Vec<Point>, HvfError>)
        ensures
            r matches Ok(p) ==> p@.len() == values@.len() && valid_path(p@),
    {
        let count = values.len();
        let mut out: Vec<Point> = Vec::new();
        let mut i: usize = 0;
        while i < count
            invariant
                i <= count,
                count == values@.len(),
                out@.len() == i,
                valid_path(out@),
            decreases count - i,
        {
            let pair = match value_as_array(&values[i]) {
                Some(a) => a,
                None => {
                    return Err(HvfError::ParseError);
                },
            };
            if pair.len() != 2 {
                return Err(HvfError::ParseError);
            }
            let x = match coord_of_value(&pair[0]) {
                Some(v) => v,
                None => {
                    return Err(HvfError::ParseError);
                },
            };
            let y = match coord_of_value(&pair[1]) {
                Some(v) => v,
                None => {
                    return Err(HvfError::ParseError);
                },
            };
            out.push(Point { x, y });
            i += 1;
        }
        Ok(out)
    }
}

/// Reads one JSON number as a fixed-point coordinate in milli-units.
fn coord_of_value(v: &serde_json::Value) -> (r: Option<i64>)
    ensures
        match r {
            Some(c) => -MAX_COORD <= c <= MAX_COORD,
            None => true,
        },
{
    let s = match number_string(v) {
        Some(s) => s,
        None => {
            return None;
        },
    };
    parse_coord(s.as_str())
}

/// Checks the sub-path invariant on parsed data: at least two points, at
/// most the maximum, and not all points coincident.
fn check_subpath(p: &Vec<Point>) -> (r: bool)
    requires
        valid_path(p@),
    ensures
        r == wf_subpath(p@),
{
    let n = p.len();
    if n < 2 || n > MAX_PATH_POINTS {
        return false;
    }
    let first = p[0];
    let mut i: usize = 1;
    while i < n
        invariant
            1 <= i <= n,
            n == p@.len(),
            2 <= n <= MAX_PATH_POINTS,
            valid_path(p@),
            first == p@[0],
            forall|j: int| 0 <= j < i as int ==> #[trigger] p@[j] == p@[0],
        decreases n - i,
    {
        let q = p[i];
        if q.x != first.x || q.y != first.y {
            proof {
                assert(p@[i as int] != p@[0]);
            }
            return true;
        }
        proof {
            assert(p@[i as int] == p@[0]);
        }
        i += 1;
    }
    proof {
        if wf_subpath(p@) {
            let j = choose|j: int| 0 <= j < p@.len() && #[trigger] p@[j] != p@[0];
            assert(false);
        }
    }
    false
}

/// In a sub-path that is not a single repeated point, some edge joins two
/// distinct points; rounded distances of distinct points are at least one,
/// so the closed length is positive.
pub proof fn lemma_wf_subpath_len_pos(s: Seq<Point>)
    requires
        wf_subpath(s),
    ensures
        closed_len(s) >= 1,
{
    let n = s.len() as int;
    let j = choose|i: int| 0 <= i < s.len() && #[trigger] s[i] != s[0];
    let k = lemma_first_diff(s, j);
    // edge k - 1 joins s[k - 1] == s[0] and s[k] != s[0]
    vstd::arithmetic::div_mod::lemma_small_mod(k as nat, n as nat);
    assert(edge_dist(s, k - 1) == dist(s[k - 1], s[k]));
    lemma_dist_sq_nonneg(s[k - 1], s[k]);
    assert(dist_sq(s[k - 1], s[k]) >= 1) by {
        let a = s[k - 1];
        let b = s[k];
        if a.x == b.x && a.y == b.y {
            assert(a == b);
        } else {
            assert((a.x - b.x) * (a.x - b.x) + (a.y - b.y) * (a.y - b.y) >= 1) by (nonlinear_arith)
                requires
                    a.x != b.x || a.y != b.y,
            ;
        }
    }
    lemma_sqrt_pos(dist_sq(s[k - 1], s[k]) as nat);
    lemma_edge_sum_split(s, 0, k - 1, n);
    lemma_edge_sum_split(s, k - 1, k, n);
    assert(edge_sum(s, k - 1, k) == edge_dist(s, k - 1) + edge_sum(s, k, k));
}

/// Finds the first index whose point differs from the start point.
proof fn lemma_first_diff(s: Seq<Point>, j: int) -> (k: int)
    requires
        0 <= j < s.len(),
        s[j] != s[0],
    ensures
        1 <= k < s.len(),
        s[k] != s[0],
        s[k - 1] == s[0],
    decreases j,
{
    if s[j - 1] == s[0] {
        j
    } else {
        lemma_first_diff(s, j - 1)
    }
}

} // verus!
