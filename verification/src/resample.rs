//! Resampling a closed path: inserting `size` new points at approximately
//! even spacing while keeping every original point, in order.
//!
//! The walk tracks a cumulative-distance cursor along the edges and an
//! insertion target that starts at half a step and advances by one step
//! (`step = total_length / size`) after each insertion. Targets and
//! fractions are compared as exact rationals: target `k` is
//! `(2k + 1) * total / (2 * size)`, so the comparison with the cursor is
//! done on integers with no rounding; only the inserted point's
//! coordinates are rounded.

use vstd::prelude::*;
use crate::animator::Animator;
use crate::geometry::{
    Point, MAX_PATH_POINTS, closed_len, dist, edge_dist, edge_sum, interp_pt,
    lemma_edge_sum_snoc, lemma_edge_sum_split, valid_path,
};

verus! {

/// The resampling walk from an intermediate state: `i` counts the edges
/// already passed, `k` the points already inserted, `cursor` the length
/// walked so far, `out` the points already emitted. Each step emits one
/// point: an interpolated one when the next insertion target falls inside
/// the current edge, the edge's start point otherwise.
pub open spec fn add_points_walk_from(
    path: Seq<Point>,
    size: int,
    i: int,
    k: int,
    cursor: int,
    out: Seq<Point>,
) -> Seq<Point>
    decreases path.len() + size - out.len(),
{
    if path.len() == 0 || out.len() >= path.len() + size {
        out
    } else {
        let n = path.len() as int;
        let a = path[i % n];
        let b = path[(i % n + 1) % n];
        let seg = dist(a, b) as int;
        let total = closed_len(path) as int;
        if (2 * k + 1) * total <= 2 * size * (cursor + seg) {
            let q = if seg == 0 {
                a
            } else {
                interp_pt(a, b, (2 * k + 1) * total - 2 * size * cursor, 2 * size * seg)
            };
            add_points_walk_from(path, size, i, k + 1, cursor, out.push(q))
        } else {
            add_points_walk_from(path, size, i + 1, k, cursor + seg, out.push(a))
        }
    }
}

/// The resampled path: the original points in order, interleaved with
/// exactly `size` inserted points at approximately even spacing.
pub open spec fn add_points_walk(path: Seq<Point>, size: int) -> Seq<Point> {
    add_points_walk_from(path, size, 0, 0, 0, Seq::empty())
}

/// `xs` appears inside `ys` in order (not necessarily contiguously).
pub open spec fn is_subseq_of(xs: Seq<Point>, ys: Seq<Point>) -> bool
    decreases ys.len(),
{
    if xs.len() == 0 {
        true
    } else if ys.len() == 0 {
        false
    } else {
        (xs[0] == ys[0] && is_subseq_of(xs.drop_first(), ys.drop_first())) || is_subseq_of(
            xs,
            ys.drop_first(),
        )
    }
}

proof fn lemma_subseq_single_last(ys: Seq<Point>, x: Point)
    ensures
        is_subseq_of(seq![x], ys.push(x)),
    decreases ys.len(),
{
    if ys.len() == 0 {
        assert(seq![x].drop_first() =~= Seq::<Point>::empty());
        assert(ys.push(x).drop_first() =~= Seq::<Point>::empty());
        assert(ys.push(x)[0] == x);
        assert(is_subseq_of(seq![x].drop_first(), ys.push(x).drop_first()));
    } else {
        lemma_subseq_single_last(ys.drop_first(), x);
        assert(ys.push(x).drop_first() =~= ys.drop_first().push(x));
    }
}

/// Appending the same point to both sequences keeps the subsequence
/// relation.
pub proof fn lemma_subseq_push_match(xs: Seq<Point>, ys: Seq<Point>, x: Point)
    requires
        is_subseq_of(xs, ys),
    ensures
        is_subseq_of(xs.push(x), ys.push(x)),
    decreases ys.len(),
{
    if xs.len() == 0 {
        assert(xs.push(x) =~= seq![x]);
        lemma_subseq_single_last(ys, x);
    } else {
        if xs[0] == ys[0] && is_subseq_of(xs.drop_first(), ys.drop_first()) {
            lemma_subseq_push_match(xs.drop_first(), ys.drop_first(), x);
            assert(xs.push(x).drop_first() =~= xs.drop_first().push(x));
            assert(ys.push(x).drop_first() =~= ys.drop_first().push(x));
        } else {
            lemma_subseq_push_match(xs, ys.drop_first(), x);
            assert(ys.push(x).drop_first() =~= ys.drop_first().push(x));
        }
    }
}

/// Appending any point to the larger sequence keeps the subsequence
/// relation.
pub proof fn lemma_subseq_push_any(xs: Seq<Point>, ys: Seq<Point>, x: Point)
    requires
        is_subseq_of(xs, ys),
    ensures
        is_subseq_of(xs, ys.push(x)),
    decreases ys.len(),
{
    if xs.len() == 0 {
    } else {
        if xs[0] == ys[0] && is_subseq_of(xs.drop_first(), ys.drop_first()) {
            lemma_subseq_push_any(xs.drop_first(), ys.drop_first(), x);
            assert(ys.push(x).drop_first() =~= ys.drop_first().push(x));
            assert(ys.push(x)[0] == ys[0]);
        } else {
            lemma_subseq_push_any(xs, ys.drop_first(), x);
            assert(ys.push(x).drop_first() =~= ys.drop_first().push(x));
        }
    }
}

/// A subsequence's points all occur in the larger sequence.
pub proof fn lemma_subseq_contains(xs: Seq<Point>, ys: Seq<Point>)
    requires
        is_subseq_of(xs, ys),
    ensures
        forall|v: Point| xs.contains(v) ==> ys.contains(v),
    decreases ys.len(),
{
    if xs.len() == 0 {
    } else if xs[0] == ys[0] && is_subseq_of(xs.drop_first(), ys.drop_first()) {
        lemma_subseq_contains(xs.drop_first(), ys.drop_first());
        assert forall|v: Point| xs.contains(v) implies ys.contains(v) by {
            let ix = choose|ix: int| 0 <= ix < xs.len() && xs[ix] == v;
            if ix == 0 {
                assert(ys[0] == v);
            } else {
                assert(xs.drop_first()[ix - 1] == v);
                assert(xs.drop_first().contains(v));
                assert(ys.drop_first().contains(v));
                let iy = choose|iy: int|
                    0 <= iy < ys.drop_first().len() && ys.drop_first()[iy] == v;
                assert(ys[iy + 1] == v);
            }
        }
    } else {
        lemma_subseq_contains(xs, ys.drop_first());
        assert forall|v: Point| xs.contains(v) implies ys.contains(v) by {
            assert(ys.drop_first().contains(v));
            let iy = choose|iy: int| 0 <= iy < ys.drop_first().len() && ys.drop_first()[iy] == v;
            assert(ys[iy + 1] == v);
        }
    }
}

impl Animator {
    /// Inserts `size` new points into the closed path at approximately
    /// even spacing. Every original point is preserved verbatim and in
    /// order; the result has exactly `size` more points, each inserted one
    /// lying on an edge of the original path at the exact rational
    /// fraction where its insertion target falls.
    pub fn add_points(&self, path: &mut Vec<Point>, size: usize)
        requires
            2 <= old(path)@.len(),
            old(path)@.len() + size <= MAX_PATH_POINTS,
            1 <= size,
            valid_path(old(path)@),
            closed_len(old(path)@) >= 1,
        ensures
            final(path)@ == add_points_walk(old(path)@, size as int),
            final(path)@.len() == old(path)@.len() + size,
            is_subseq_of(old(path)@, final(path)@),
            valid_path(final(path)@),
    {
        let ghost path0 = path@;
        let total64: u64 = self.get_path_len(path);
        let total: u128 = total64 as u128;
        let n = path.len();
        let mut new_path: Vec<Point> = Vec::new();
        let mut cursor: u128 = 0;
        let mut k: usize = 0;
        let mut i: usize = 0;
        proof {
            assert(path0.take(0) =~= Seq::<Point>::empty());
        }
        while new_path.len() < n + size
            invariant
                n == path0.len(),
                2 <= n,
                n + size <= MAX_PATH_POINTS,
                1 <= size,
                valid_path(path0),
                path@ == path0,
                total == closed_len(path0),
                1 <= total <= 0x40000000000,
                i <= n,
                k <= size,
                new_path@.len() == i + k,
                i == n ==> k == size,
                cursor == edge_sum(path0, 0, i as int),
                2 * (size as int) * (cursor as int) < (2 * (k as int) + 1) * (total as int),
                add_points_walk_from(
                    path0,
                    size as int,
                    i as int,
                    k as int,
                    cursor as int,
                    new_path@,
                ) == add_points_walk(path0, size as int),
                is_subseq_of(path0.take(i as int), new_path@),
                valid_path(new_path@),
            decreases n + size - new_path@.len(),
        {
            proof {
                if i == n {
                    assert(new_path@.len() >= n + size);
                    assert(false);
                }
            }
            let next: usize = if i + 1 == n {
                0
            } else {
                i + 1
            };
            proof {
                if i + 1 == n {
                    vstd::arithmetic::div_mod::lemma_mod_self_0(n as int);
                } else {
                    vstd::arithmetic::div_mod::lemma_small_mod((i + 1) as nat, n as nat);
                }
                vstd::arithmetic::div_mod::lemma_small_mod(i as nat, n as nat);
                assert(next as int == (i as int + 1) % (n as int));
            }
            let a = path[i];
            let b = path[next];
            let seg64 = self.get_distance(&a, &b);
            let seg: u128 = seg64 as u128;
            proof {
                assert(seg == edge_dist(path0, i as int));
                // the cursor never walks past the total length
                lemma_edge_sum_snoc(path0, 0, i as int);
                lemma_edge_sum_split(path0, 0, i as int + 1, n as int);
                assert(cursor as int + seg as int <= total as int);
                // product bounds for the exact rational comparison
                assert((2 * (k as int) + 1) * (total as int) <= 0x200001 * 0x40000000000)
                    by (nonlinear_arith)
                    requires
                        0 <= k <= 0x100000,
                        0 <= total <= 0x40000000000,
                ;
                assert(0 <= 2 * (size as int) * (cursor as int + seg as int) <= 0x200000
                    * 0x40000000000) by (nonlinear_arith)
                    requires
                        1 <= size <= 0x100000,
                        0 <= cursor as int + seg as int <= 0x40000000000,
                ;
                assert(0 <= 2 * (size as int) * (cursor as int) <= 0x200000 * 0x40000000000)
                    by (nonlinear_arith)
                    requires
                        1 <= size <= 0x100000,
                        0 <= cursor as int <= 0x40000000000,
                ;
            }
            let lhs: u128 = (2 * (k as u128) + 1) * total;
            let rhs: u128 = 2 * (size as u128) * (cursor + seg);
            let ghost pre = new_path@;
            if lhs <= rhs {
                let q: Point = if seg64 == 0 {
                    a
                } else {
                    proof {
                        assert(2 * (size as int) * (cursor as int + seg as int) - 2 * (size as int)
                            * (cursor as int) == 2 * (size as int) * (seg as int))
                            by (nonlinear_arith);
                        assert(1 <= 2 * (size as int) * (seg as int) <= 0x200000 * 0x400000)
                            by (nonlinear_arith)
                            requires
                                1 <= size <= 0x100000,
                                1 <= seg <= 0x400000,
                        ;
                    }
                    let num: u128 = lhs - 2 * (size as u128) * cursor;
                    let den: u128 = 2 * (size as u128) * seg;
                    proof {
                        assert(num <= den);
                    }
                    self.get_point_along(&a, &b, num as u64, den as u64)
                };
                proof {
                    assert(add_points_walk_from(
                        path0,
                        size as int,
                        i as int,
                        k as int,
                        cursor as int,
                        new_path@,
                    ) == add_points_walk_from(
                        path0,
                        size as int,
                        i as int,
                        k as int + 1,
                        cursor as int,
                        new_path@.push(q),
                    ));
                }
                new_path.push(q);
                k += 1;
                proof {
                    // the next insertion target still lies past the cursor
                    assert(2 * (size as int) * (cursor as int) < (2 * (k as int) + 1) * (
                    total as int)) by (nonlinear_arith)
                        requires
                            2 * (size as int) * (cursor as int) < (2 * (k as int) - 1) * (
                            total as int),
                            total as int >= 1,
                    ;
                    // at most `size` points are ever inserted
                    assert((2 * (k as int) - 1) <= 2 * (size as int)) by (nonlinear_arith)
                        requires
                            (2 * (k as int) - 1) * (total as int) <= 2 * (size as int) * (
                            cursor as int + seg as int),
                            cursor as int + seg as int <= total as int,
                            total as int >= 1,
                            size >= 1,
                    ;
                    lemma_subseq_push_any(path0.take(i as int), pre, q);
                }
            } else {
                proof {
                    assert(add_points_walk_from(
                        path0,
                        size as int,
                        i as int,
                        k as int,
                        cursor as int,
                        new_path@,
                    ) == add_points_walk_from(
                        path0,
                        size as int,
                        i as int + 1,
                        k as int,
                        cursor as int + seg as int,
                        new_path@.push(a),
                    ));
                }
                new_path.push(a);
                cursor = cursor + seg;
                i += 1;
                proof {
                    assert(path0.take(i as int) =~= path0.take(i as int - 1).push(
                        path0[i as int - 1],
                    ));
                    lemma_subseq_push_match(path0.take(i as int - 1), pre, a);
                    if i == n {
                        // past the last edge every remaining target exceeds
                        // the total length, so all insertions are done
                        assert(2 * (k as int) + 1 > 2 * (size as int)) by (nonlinear_arith)
                            requires
                                (2 * (k as int) + 1) * (total as int) > 2 * (size as int) * (
                                cursor as int),
                                cursor as int == total as int,
                                total as int >= 1,
                        ;
                    }
                }
            }
        }
        proof {
            assert(i == n && k == size);
            assert(add_points_walk_from(
                path0,
                size as int,
                i as int,
                k as int,
                cursor as int,
                new_path@,
            ) == new_path@);
            assert(path0.take(n as int) =~= path0);
        }
        *path = new_path;
    }
}

} // verus!
