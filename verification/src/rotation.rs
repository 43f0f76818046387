//! Rotation alignment of a closed path against a target: an exhaustive
//! search for the cyclic offset with the least sum of squared distances,
//! and an in-place rotation that follows the `gcd(offset, len)` disjoint
//! index cycles in O(n) time and O(1) extra storage.

use vstd::prelude::*;
use crate::animator::Animator;
use crate::geometry::{
    Point, MAX_PATH_POINTS, dist_sq, lemma_dist_sq_nonneg, point_dist_sq, rotate_seq, valid_path,
};
use crate::numth::{
    gcd, gcd_usize, lemma_cycle_distinct, lemma_cycle_residue, lemma_cycle_return,
    lemma_cycle_step, lemma_divides_factor, lemma_divides_iff_mod, lemma_divides_le,
    lemma_divides_pos, lemma_gcd_divides,
};

verus! {

/// Partial alignment cost: the sum of `dist_sq(c[(off + i) mod n], t[i])`
/// over `i` in `[0, m)`.
pub open spec fn cost_prefix(c: Seq<Point>, t: Seq<Point>, off: int, m: int) -> int
    decreases m,
{
    if m <= 0 {
        0
    } else {
        cost_prefix(c, t, off, m - 1) + dist_sq(c[(off + m - 1) % (c.len() as int)], t[m - 1])
    }
}

/// Cost of aligning `c` rotated by `off` with `t`: the sum of squared
/// pointwise distances.
pub open spec fn cost(c: Seq<Point>, t: Seq<Point>, off: int) -> int {
    cost_prefix(c, t, off, t.len() as int)
}

/// The smallest offset in `[0, m)` of least cost.
pub open spec fn best_offset_upto(c: Seq<Point>, t: Seq<Point>, m: int) -> int
    decreases m,
{
    if m <= 1 {
        0
    } else {
        let prev = best_offset_upto(c, t, m - 1);
        if cost(c, t, m - 1) < cost(c, t, prev) {
            m - 1
        } else {
            prev
        }
    }
}

/// The smallest offset of least cost over all cyclic rotations.
pub open spec fn best_offset(c: Seq<Point>, t: Seq<Point>) -> int {
    best_offset_upto(c, t, c.len() as int)
}

pub proof fn lemma_cost_prefix_nonneg(c: Seq<Point>, t: Seq<Point>, off: int, m: int)
    ensures
        cost_prefix(c, t, off, m) >= 0,
    decreases m,
{
    if m > 0 {
        lemma_cost_prefix_nonneg(c, t, off, m - 1);
        lemma_dist_sq_nonneg(c[(off + m - 1) % (c.len() as int)], t[m - 1]);
    }
}

/// The scanned best offset is in range, has least cost among the scanned
/// offsets, and is the smallest offset of that cost.
pub proof fn lemma_best_offset_upto_props(c: Seq<Point>, t: Seq<Point>, m: int)
    requires
        m >= 1,
    ensures
        0 <= best_offset_upto(c, t, m) < m,
        forall|j: int|
            0 <= j < m ==> cost(c, t, best_offset_upto(c, t, m)) <= #[trigger] cost(c, t, j),
        forall|j: int|
            0 <= j < best_offset_upto(c, t, m) ==> #[trigger] cost(c, t, j) > cost(
                c,
                t,
                best_offset_upto(c, t, m),
            ),
    decreases m,
{
    if m > 1 {
        lemma_best_offset_upto_props(c, t, m - 1);
    }
}

/// Once a scanned prefix reaches cost zero the final answer is fixed.
proof fn lemma_best_zero_stays(c: Seq<Point>, t: Seq<Point>, m1: int, m2: int)
    requires
        1 <= m1 <= m2,
        cost(c, t, best_offset_upto(c, t, m1)) == 0,
    ensures
        best_offset_upto(c, t, m2) == best_offset_upto(c, t, m1),
    decreases m2 - m1,
{
    if m2 > m1 {
        lemma_best_zero_stays(c, t, m1, m2 - 1);
        lemma_cost_prefix_nonneg(c, t, m2 - 1, t.len() as int);
    }
}

/// Rotation alignment never increases the cost metric versus offset zero.
pub proof fn lemma_best_offset_no_worse(c: Seq<Point>, t: Seq<Point>)
    requires
        c.len() >= 1,
    ensures
        cost(c, t, best_offset(c, t)) <= cost(c, t, 0),
{
    lemma_best_offset_upto_props(c, t, c.len() as int);
}

proof fn lemma_cost_prefix_self(c: Seq<Point>, m: int)
    requires
        m <= c.len(),
    ensures
        cost_prefix(c, c, 0, m) == 0,
    decreases m,
{
    if m > 0 {
        lemma_cost_prefix_self(c, m - 1);
        vstd::arithmetic::div_mod::lemma_small_mod((m - 1) as nat, c.len());
        assert(dist_sq(c[m - 1], c[m - 1]) == 0) by (nonlinear_arith);
    }
}

/// Identical paths align at offset zero with zero cost.
pub proof fn lemma_best_offset_identical(c: Seq<Point>)
    requires
        c.len() >= 1,
    ensures
        best_offset(c, c) == 0,
        cost(c, c, 0) == 0,
{
    lemma_cost_prefix_self(c, c.len() as int);
    let b = best_offset(c, c);
    lemma_best_offset_upto_props(c, c, c.len() as int);
    lemma_cost_prefix_nonneg(c, c, b, c.len() as int);
    if b != 0 {
        // cost(0) > cost(b) >= 0 contradicts cost(0) == 0
        assert(cost(c, c, 0) > cost(c, c, b));
    }
}

/// Cost of one rotation offset, computed by walking the indices.
fn rotation_cost(path: &Vec<Point>, vs: &Vec<Point>, offset: usize) -> (r: u128)
    requires
        path@.len() == vs@.len(),
        1 <= vs@.len() <= MAX_PATH_POINTS,
        offset < vs@.len(),
        valid_path(path@),
        valid_path(vs@),
    ensures
        r == cost(path@, vs@, offset as int),
{
    let n = vs.len();
    let mut sum: u128 = 0;
    let mut i: usize = 0;
    while i < n
        invariant
            n == vs@.len(),
            path@.len() == n,
            1 <= n <= MAX_PATH_POINTS,
            offset < n,
            valid_path(path@),
            valid_path(vs@),
            i <= n,
            sum == cost_prefix(path@, vs@, offset as int, i as int),
            sum <= (i as int) * 0x80000000000,
        decreases n - i,
    {
        let idx_raw = offset + i;
        let idx = if idx_raw >= n {
            idx_raw - n
        } else {
            idx_raw
        };
        proof {
            if idx_raw >= n {
                vstd::arithmetic::div_mod::lemma_mod_sub_multiples_vanish(
                    offset as int + i as int,
                    n as int,
                );
                vstd::arithmetic::div_mod::lemma_small_mod((idx_raw - n) as nat, n as nat);
            } else {
                vstd::arithmetic::div_mod::lemma_small_mod(idx_raw as nat, n as nat);
            }
            assert(idx as int == (offset as int + i as int) % (n as int));
        }
        let d = point_dist_sq(&path[idx], &vs[i]);
        sum = sum + (d as u128);
        i += 1;
    }
    sum
}

/// Some index among the first `m` steps of the rotation cycle based at
/// `i` with jump `o` modulo `n`.
spec fn in_cycle(x: int, i: int, m: int, o: int, n: int) -> bool {
    exists|m2: int| 0 <= m2 < m && x == #[trigger] ((i + m2 * o) % n)
}

/// The path state in the middle of an in-place rotation: cycles based
/// below `i` are fully rotated, the first `m` members of the cycle based
/// at `i` are rotated, and everything else still holds its original
/// point.
spec fn rotated_upto(orig: Seq<Point>, cur: Seq<Point>, o: int, g: int, i: int, m: int) -> bool {
    let n = orig.len() as int;
    &&& cur.len() == orig.len()
    &&& forall|x: int|
        0 <= x < n ==> #[trigger] cur[x] == (if x % g < i || (x % g == i && in_cycle(
            x,
            i,
            m,
            o,
            n,
        )) {
            orig[(x + o) % n]
        } else {
            orig[x]
        })
}

impl Animator {
    /// Aligns `path` with the target `vs`: searches every cyclic rotation
    /// for the offset with the least sum of squared distances (ties broken
    /// by the smallest offset, stopping early on an exact match) and
    /// rotates `path` in place by that offset.
    pub fn rotate(&self, path: &mut Vec<Point>, vs: &Vec<Point>)
        requires
            old(path)@.len() == vs@.len(),
            1 <= vs@.len() <= MAX_PATH_POINTS,
            valid_path(old(path)@),
            valid_path(vs@),
        ensures
            final(path)@ == rotate_seq(old(path)@, best_offset(old(path)@, vs@)),
    {
        let path_len = vs.len();
        let mut best: usize = 0;
        let mut min_val: u128 = rotation_cost(path, vs, 0);
        let mut offset: usize = 1;
        proof {
            assert(best as int == best_offset_upto(path@, vs@, 1));
        }
        while offset < path_len && min_val != 0
            invariant
                path@ == old(path)@,
                path@.len() == vs@.len(),
                1 <= vs@.len() <= MAX_PATH_POINTS,
                path_len == vs@.len(),
                valid_path(path@),
                valid_path(vs@),
                1 <= offset <= path_len,
                best < offset,
                min_val as int == cost(path@, vs@, best as int),
                best as int == best_offset_upto(path@, vs@, offset as int),
            decreases path_len - offset,
        {
            let sum_of_square = rotation_cost(path, vs, offset);
            if sum_of_square < min_val {
                min_val = sum_of_square;
                best = offset;
            }
            proof {
                assert(best as int == best_offset_upto(path@, vs@, offset as int + 1));
            }
            offset += 1;
        }
        proof {
            if offset < path_len {
                lemma_best_zero_stays(path@, vs@, offset as int, path_len as int);
            }
            assert(best as int == best_offset(path@, vs@));
        }
        if best != 0 {
            self.offset_path(path, path_len, best);
            proof {
                vstd::arithmetic::div_mod::lemma_small_mod(best as nat, path_len as nat);
            }
        } else {
            proof {
                crate::geometry::lemma_rotate_zero(path@);
            }
        }
    }

    /// Rotates `path` left by `offset_val mod len` positions in place:
    /// afterwards index `x` holds what index `(x + offset_val) mod len`
    /// held before. Decomposes the indices into `gcd(offset, len)`
    /// disjoint cycles and follows each with jumps of size `offset`.
    pub fn offset_path(&self, path: &mut Vec<Point>, path_len: usize, offset_val: usize)
        requires
            old(path)@.len() == path_len,
            1 <= path_len <= MAX_PATH_POINTS,
        ensures
            final(path)@ == rotate_seq(old(path)@, (offset_val % path_len) as int),
    {
        let ghost orig = path@;
        let ghost n = path_len as int;
        let off = offset_val % path_len;
        if off == 0 {
            proof {
                assert forall|x: int| 0 <= x < n implies rotate_seq(orig, 0)[x] == orig[x] by {
                    vstd::arithmetic::div_mod::lemma_small_mod(x as nat, n as nat);
                }
                assert(rotate_seq(orig, 0) =~= orig);
            }
            return ;
        }
        let g_c_d = gcd_usize(off, path_len);
        proof {
            lemma_gcd_divides(off as nat, path_len as nat);
            lemma_divides_pos(g_c_d as int, off as int);
            lemma_divides_le(g_c_d as int, off as int);
            lemma_divides_factor(g_c_d as int, n);
        }
        let ghost np = (path_len as nat / gcd(off as nat, path_len as nat)) as int;
        proof {
            assert(np == n / (g_c_d as int));
            assert(np >= 1) by (nonlinear_arith)
                requires
                    n == (g_c_d as int) * np,
                    n >= 1,
                    g_c_d >= 1,
            ;
        }
        let ghost go = off as int;
        let ghost gg = g_c_d as int;
        let mut i: usize = 0;
        while i < g_c_d
            invariant
                path@.len() == n,
                orig.len() == n,
                n == path_len as int,
                go == off as int,
                gg == g_c_d as int,
                1 <= off < path_len <= MAX_PATH_POINTS,
                g_c_d == gcd(off as nat, path_len as nat),
                1 <= g_c_d,
                g_c_d <= off,
                np == (path_len as nat / gcd(off as nat, path_len as nat)) as int,
                n == gg * np,
                np >= 1,
                i <= g_c_d,
                rotated_upto(orig, path@, go, gg, i as int, 0),
            decreases g_c_d - i,
        {
            proof {
                vstd::arithmetic::div_mod::lemma_small_mod(i as nat, g_c_d as nat);
                assert(path@[i as int] == orig[i as int]);
            }
            let temp = path[i];
            let mut j: usize = i;
            let mut k: usize = (j + off) % path_len;
            let ghost mut m: int = 0;
            proof {
                vstd::arithmetic::div_mod::lemma_small_mod(i as nat, path_len as nat);
                assert(0 * go == 0);
                assert(1 * go == go);
                assert(j as int == (i as int + 0 * go) % n);
                assert(k as int == (i as int + 1 * go) % n);
            }
            while k != i
                invariant
                    path@.len() == n,
                    orig.len() == n,
                    n == path_len as int,
                    go == off as int,
                    gg == g_c_d as int,
                    1 <= off < path_len <= MAX_PATH_POINTS,
                    g_c_d == gcd(off as nat, path_len as nat),
                    1 <= g_c_d,
                    g_c_d <= off,
                    i < g_c_d,
                    np == (path_len as nat / gcd(off as nat, path_len as nat)) as int,
                    n == gg * np,
                    np >= 1,
                    0 <= m < np,
                    j < path_len,
                    k < path_len,
                    j as int == (i as int + m * go) % n,
                    k as int == (i as int + (m + 1) * go) % n,
                    temp == orig[i as int],
                    rotated_upto(orig, path@, go, gg, i as int, m),
                decreases np - m,
            {
                proof {
                    // k != i, so m + 1 is no multiple of the cycle length
                    lemma_cycle_return(off as nat, path_len as nat, i as int, m + 1);
                    if m + 1 == np {
                        vstd::arithmetic::div_mod::lemma_mod_self_0(np);
                        lemma_divides_iff_mod(np, m + 1);
                        assert(false);
                    }
                    // the read position is untouched: it sits in this cycle
                    // beyond the first m members
                    lemma_cycle_residue(off as nat, path_len as nat, i as int, m + 1);
                    vstd::arithmetic::div_mod::lemma_small_mod(i as nat, g_c_d as nat);
                    assert(k as int % gg == i as int);
                    assert forall|m2: int| 0 <= m2 < m + 1 implies #[trigger] ((i as int + m2 * go)
                        % n) != k as int by {
                        vstd::arithmetic::div_mod::lemma_small_mod((m + 1 - m2) as nat, np as nat);
                        lemma_cycle_distinct(off as nat, path_len as nat, i as int, m2, m + 1);
                    }
                    assert(!in_cycle(k as int, i as int, m, go, n));
                    assert(path@[k as int] == orig[k as int]);
                }
                let v = path[k];
                let ghost pre = path@;
                path.set(j, v);
                proof {
                    lemma_cycle_step(go, n, i as int, m);
                    lemma_cycle_residue(off as nat, path_len as nat, i as int, m);
                    vstd::arithmetic::div_mod::lemma_small_mod(i as nat, g_c_d as nat);
                    assert(j as int % gg == i as int);
                    assert(j as int == (i as int + m * go) % n);
                    assert(in_cycle(j as int, i as int, m + 1, go, n));
                    assert forall|x: int| 0 <= x < n implies #[trigger] path@[x] == (if x % gg
                        < i as int || (x % gg == i as int && in_cycle(x, i as int, m + 1, go, n)) {
                        orig[(x + go) % n]
                    } else {
                        orig[x]
                    }) by {
                        if x == j as int {
                            assert(path@[x] == orig[k as int]);
                            assert((x + go) % n == k as int);
                        } else {
                            assert(path@[x] == pre[x]);
                            if x % gg == i as int && in_cycle(x, i as int, m + 1, go, n)
                                && !in_cycle(x, i as int, m, go, n) {
                                let m2 = choose|m2: int|
                                    0 <= m2 < m + 1 && x == #[trigger] ((i as int + m2 * go) % n);
                                assert(m2 == m);
                                assert(x == j as int);
                            }
                        }
                    }
                    m = m + 1;
                }
                j = k;
                k = (j + off) % path_len;
                proof {
                    lemma_cycle_step(go, n, i as int, m);
                }
            }
            proof {
                // the cycle closed: m + 1 is exactly the cycle length
                lemma_cycle_return(off as nat, path_len as nat, i as int, m + 1);
                vstd::arithmetic::div_mod::lemma_small_mod(i as nat, path_len as nat);
                assert((i as int + (m + 1) * go) % n == i as int);
                lemma_divides_le(np, m + 1);
                assert(m == np - 1);
            }
            let ghost pre = path@;
            path.set(j, temp);
            proof {
                assert forall|x: int| 0 <= x < n implies #[trigger] path@[x] == (if x % gg < i as int
                    + 1 {
                    orig[(x + go) % n]
                } else {
                    orig[x]
                }) by {
                    if x == j as int {
                        // temp == orig[i] and (j + off) mod n == k == i
                        lemma_cycle_step(go, n, i as int, m);
                        assert((x + go) % n == i as int);
                        lemma_cycle_residue(off as nat, path_len as nat, i as int, m);
                        vstd::arithmetic::div_mod::lemma_small_mod(i as nat, g_c_d as nat);
                        assert(x % gg == i as int);
                    } else if 0 <= x % gg == i as int {
                        vstd::arithmetic::div_mod::lemma_small_mod(i as nat, g_c_d as nat);
                        lemma_cycle_coverage_apply(off as nat, path_len as nat, i as int, x, np, m);
                        assert(in_cycle(x, i as int, m, go, n));
                        assert(path@[x] == pre[x]);
                    } else {
                        assert(path@[x] == pre[x]);
                    }
                }
                assert(rotated_upto(orig, path@, go, gg, i as int + 1, 0));
            }
            i += 1;
        }
        proof {
            assert forall|x: int| 0 <= x < n implies path@[x] == rotate_seq(orig, go)[x] by {
                vstd::arithmetic::div_mod::lemma_mod_pos_bound(x, gg);
            }
            assert(path@ =~= rotate_seq(orig, go));
        }
    }
}

/// In the cycle based at `i`, every index of the residue class other than
/// the last written one appears within the first `np - 1` steps.
proof fn lemma_cycle_coverage_apply(o: nat, n: nat, i: int, x: int, np: int, m: int)
    requires
        1 <= o < n,
        0 <= i < n,
        0 <= x < n,
        x % (gcd(o, n) as int) == i % (gcd(o, n) as int),
        np == (n / gcd(o, n)) as int,
        m == np - 1,
        x != (i + m * (o as int)) % (n as int),
    ensures
        in_cycle(x, i, m, o as int, n as int),
{
    crate::numth::lemma_cycle_coverage(o, n, i, x);
    let m2 = choose|m2: int|
        0 <= m2 < (n / gcd(o, n)) as int && #[trigger] ((i + m2 * (o as int)) % (n as int)) == x;
    assert(m2 < m + 1);
    if m2 == m {
        assert(false);
    }
    assert(0 <= m2 < m && x == (i + m2 * (o as int)) % (n as int));
}

} // verus!
