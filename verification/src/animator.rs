//! The animation orchestrator: owns the active pose, the live
//! interpolator set, the transition start timestamp, and the duration.
//!
//! Time is a `u64` count of milliseconds supplied by the caller; the
//! library itself never reads a clock.

use vstd::prelude::*;
use crate::geometry::{
    Point, MAX_PATH_POINTS, closed_len, dist, edge_sum, interp_pt, interp_pt_exec,
    lemma_edge_sum_snoc, point_dist, rotate_seq, valid_path, valid_point,
};
use crate::hvf::{HVF, lemma_wf_subpath_len_pos, wf_subpath};
use crate::interpolator::{Interpolator, interp_path, lemma_interp_path_endpoints};
use crate::resample::{add_points_walk, is_subseq_of, lemma_subseq_contains};
use crate::rotation::best_offset;

verus! {

/// Orchestrates a pose-to-pose transition and answers per-frame queries.
#[derive(Debug)]
pub struct Animator {
    /// Current active pose (the state the next transition starts from).
    pub active_ring: HVF,
    /// Interpolators for the in-flight transition, one per sub-path.
    pub active_interpolators: Vec<Interpolator>,
    /// Timestamp at which the current transition started.
    pub interpolate_instance: u64,
    /// Total duration of one loop of the transition; positive whenever a
    /// transition is in flight.
    pub interpolate_duration: u64,
}

impl Animator {
    /// Valid animator state: well-formed pose, well-formed interpolators,
    /// and a positive duration whenever interpolators exist.
    pub open spec fn wf(self) -> bool {
        &&& self.active_ring.wf()
        &&& forall|i: int|
            0 <= i < self.active_interpolators@.len() ==> (
            #[trigger] self.active_interpolators@[i]).wf()
        &&& self.active_interpolators@.len() > 0 ==> self.interpolate_duration >= 1
    }

    /// A fresh animator holding the given pose, with no transition in
    /// flight.
    pub fn new(default_ring: &HVF, now: u64) -> (r: Animator)
        requires
            default_ring.wf(),
        ensures
            r.wf(),
            r.active_ring.spec_values() == default_ring.spec_values(),
            r.active_interpolators@.len() == 0,
            r.interpolate_instance == now,
            r.interpolate_duration == 0,
    {
        let values = clone_paths(&default_ring.values);
        let len = values.len();
        let ring = HVF { values, len };
        proof {
            assert(ring.spec_values() =~= default_ring.spec_values());
        }
        Animator {
            active_ring: ring,
            active_interpolators: Vec::new(),
            interpolate_instance: now,
            interpolate_duration: 0,
        }
    }

    /// Euclidean distance between two points, rounded down.
    pub fn get_distance(&self, a: &Point, b: &Point) -> (r: u64)
        requires
            valid_point(*a),
            valid_point(*b),
        ensures
            r == dist(*a, *b),
            r <= 0x400000,
    {
        point_dist(a, b)
    }

    /// The point a fraction `num / den` of the way along the segment from
    /// `a` to `b`.
    pub fn get_point_along(&self, a: &Point, b: &Point, num: u64, den: u64) -> (r: Point)
        requires
            1 <= den,
            num <= den,
            valid_point(*a),
            valid_point(*b),
        ensures
            r == interp_pt(*a, *b, num as int, den as int),
            valid_point(r),
    {
        interp_pt_exec(a, b, num, den)
    }

    /// Total length of a closed path: the sum of the rounded edge
    /// distances, including the wrap edge from the last point back to the
    /// first.
    pub fn get_path_len(&self, path: &Vec<Point>) -> (r: u64)
        requires
            2 <= path@.len() <= MAX_PATH_POINTS,
            valid_path(path@),
        ensures
            r == closed_len(path@),
            r <= 0x40000000000,
    {
        let n = path.len();
        let mut path_len: u64 = 0;
        let mut j: usize = 0;
        while j < n
            invariant
                2 <= n <= MAX_PATH_POINTS,
                n == path@.len(),
                valid_path(path@),
                j <= n,
                path_len == edge_sum(path@, 0, j as int),
                path_len <= (j as int) * 0x400000,
            decreases n - j,
        {
            let next: usize = if j + 1 == n {
                0
            } else {
                j + 1
            };
            proof {
                if j + 1 == n {
                    vstd::arithmetic::div_mod::lemma_mod_self_0(n as int);
                } else {
                    vstd::arithmetic::div_mod::lemma_small_mod((j + 1) as nat, n as nat);
                }
                assert(next as int == (j as int + 1) % (n as int));
                lemma_edge_sum_snoc(path@, 0, j as int);
            }
            let d = point_dist(&path[j], &path[next]);
            path_len = path_len + d;
            j += 1;
        }
        path_len
    }
}

/// The pair `(C', T')` that normalizing the sub-paths `(c, t)` yields:
/// the shorter one is resampled up to the longer one's point count, then
/// the current path is rotated to the best-aligned offset.
pub open spec fn normalize_spec(c: Seq<Point>, t: Seq<Point>) -> (Seq<Point>, Seq<Point>) {
    let c1 = if c.len() < t.len() {
        add_points_walk(c, t.len() - c.len())
    } else {
        c
    };
    let t1 = if t.len() < c.len() {
        add_points_walk(t, c.len() - t.len())
    } else {
        t
    };
    (rotate_seq(c1, best_offset(c1, t1)), t1)
}

/// The wrapped interpolation parameter numerator at a given time: the
/// elapsed time (clamped below at zero) modulo the duration, or zero when
/// no transition is in flight.
pub open spec fn wrapped_t_num(time: int, instance: int, duration: int) -> int {
    if duration <= 0 {
        0
    } else if time >= instance {
        (time - instance) % duration
    } else {
        0
    }
}

/// The full pose the animator reports at `time`: every interpolator's
/// sub-path at the wrapped parameter.
pub open spec fn pose_at(a: Animator, time: int) -> Seq<Seq<Point>> {
    let num = wrapped_t_num(time, a.interpolate_instance as int, a.interpolate_duration as int);
    let den = if a.interpolate_duration == 0 {
        1int
    } else {
        a.interpolate_duration as int
    };
    Seq::new(
        a.active_interpolators@.len(),
        |i: int|
            interp_path(
                a.active_interpolators@[i].current_path@,
                a.active_interpolators@[i].target_path@,
                num,
                den,
            ),
    )
}

impl Animator {
    /// Normalizes two sub-paths to the same point count and aligned
    /// correspondence: the shorter path receives new points until both
    /// have `max(|C|, |T|)` points, then the current path is rotated to
    /// the offset of least squared displacement against the target.
    pub fn normalize(&self, current_path: &mut Vec<Point>, target_path: &mut Vec<Point>)
        requires
            wf_subpath(old(current_path)@),
            wf_subpath(old(target_path)@),
        ensures
            final(current_path)@ == normalize_spec(old(current_path)@, old(target_path)@).0,
            final(target_path)@ == normalize_spec(old(current_path)@, old(target_path)@).1,
            final(current_path)@.len() == final(target_path)@.len(),
            final(current_path)@.len() == if old(current_path)@.len() >= old(target_path)@.len() {
                old(current_path)@.len()
            } else {
                old(target_path)@.len()
            },
            wf_subpath(final(current_path)@),
            wf_subpath(final(target_path)@),
    {
        let c_len = current_path.len();
        let t_len = target_path.len();
        if c_len < t_len {
            proof {
                lemma_wf_subpath_len_pos(current_path@);
            }
            let ghost before = current_path@;
            self.add_points(current_path, t_len - c_len);
            proof {
                lemma_wf_after_resample(before, current_path@);
            }
        } else if t_len < c_len {
            proof {
                lemma_wf_subpath_len_pos(target_path@);
            }
            let ghost before = target_path@;
            self.add_points(target_path, c_len - t_len);
            proof {
                lemma_wf_after_resample(before, target_path@);
            }
        }
        let ghost c1 = current_path@;
        self.rotate(current_path, target_path);
        proof {
            crate::rotation::lemma_best_offset_upto_props(c1, target_path@, c1.len() as int);
            lemma_wf_subpath_rotate(c1, best_offset(c1, target_path@));
        }
    }

    /// Builds one interpolator per sub-path of the target pose,
    /// normalizing each (current, target) pair; the normalized current
    /// sub-path is written back into the stored active pose, so the next
    /// transition starts from already-equalized geometry.
    pub fn get_interpolaror(&mut self, target_ring: &HVF) -> (r: Vec<Interpolator>)
        requires
            old(self).wf(),
            target_ring.wf(),
            target_ring.values@.len() == old(self).active_ring.values@.len(),
        ensures
            final(self).wf(),
            r@.len() == target_ring.values@.len(),
            final(self).active_ring.values@.len() == old(self).active_ring.values@.len(),
            forall|i: int|
                0 <= i < r@.len() ==> {
                    let pair = normalize_spec(
                        old(self).active_ring.spec_values()[i],
                        target_ring.spec_values()[i],
                    );
                    &&& (#[trigger] r@[i]).current_path@ == pair.0
                    &&& r@[i].target_path@ == pair.1
                    &&& r@[i].wf()
                    &&& final(self).active_ring.spec_values()[i] == pair.0
                },
            final(self).active_interpolators == old(self).active_interpolators,
            final(self).interpolate_instance == old(self).interpolate_instance,
            final(self).interpolate_duration == old(self).interpolate_duration,
    {
        let ghost old_vals = old(self).active_ring.spec_values();
        let mut collection: Vec<Interpolator> = Vec::new();
        let count = target_ring.values.len();
        let mut idx: usize = 0;
        while idx < count
            invariant
                old(self).wf(),
                target_ring.wf(),
                count == target_ring.values@.len(),
                count == self.active_ring.values@.len(),
                count == old_vals.len(),
                old_vals == old(self).active_ring.spec_values(),
                self.active_ring.len == old(self).active_ring.len,
                self.wf(),
                idx <= count,
                collection@.len() == idx,
                forall|i: int|
                    0 <= i < idx ==> {
                        let pair = normalize_spec(old_vals[i], target_ring.spec_values()[i]);
                        &&& (#[trigger] collection@[i]).current_path@ == pair.0
                        &&& collection@[i].target_path@ == pair.1
                        &&& collection@[i].wf()
                        &&& self.active_ring.spec_values()[i] == pair.0
                    },
                forall|i: int|
                    idx <= i < count ==> #[trigger] self.active_ring.spec_values()[i]
                        == old_vals[i],
                self.active_interpolators == old(self).active_interpolators,
                self.interpolate_instance == old(self).interpolate_instance,
                self.interpolate_duration == old(self).interpolate_duration,
            decreases count - idx,
        {
            proof {
                assert(self.active_ring.spec_values()[idx as int] == self.active_ring.values@[idx
                    as int]@);
                assert(target_ring.spec_values()[idx as int] == target_ring.values@[idx as int]@);
                assert(wf_subpath(self.active_ring.values@[idx as int]@));
                assert(wf_subpath(target_ring.values@[idx as int]@));
            }
            let mut current_path = clone_path(&self.active_ring.values[idx]);
            let mut tgt = clone_path(&target_ring.values[idx]);
            proof {
                assert(current_path@ == old_vals[idx as int]);
            }
            self.normalize(&mut current_path, &mut tgt);
            let written_back = clone_path(&current_path);
            let ghost pre_ring = self.active_ring.spec_values();
            self.active_ring.values.set(idx, written_back);
            proof {
                assert forall|i: int|
                    0 <= i < count implies #[trigger] self.active_ring.spec_values()[i] == (if i
                    == idx as int {
                    current_path@
                } else {
                    pre_ring[i]
                }) by {
                    assert(self.active_ring.spec_values()[i] == self.active_ring.values@[i]@);
                }
            }
            collection.push(Interpolator::new(current_path, tgt));
            idx += 1;
        }
        collection
    }

    /// Starts a pose-to-pose transition: builds fresh interpolators for
    /// every sub-path pair, writes the normalized current sub-paths back
    /// into the active pose, and resets the start timestamp and duration.
    pub fn animate(&mut self, target_ring: &HVF, duration: u64, now: u64)
        requires
            old(self).wf(),
            target_ring.wf(),
            target_ring.values@.len() == old(self).active_ring.values@.len(),
            1 <= duration,
        ensures
            final(self).wf(),
            final(self).interpolate_instance == now,
            final(self).interpolate_duration == duration,
            final(self).active_interpolators@.len() == target_ring.values@.len(),
            final(self).active_ring.values@.len() == old(self).active_ring.values@.len(),
            forall|i: int|
                0 <= i < target_ring.values@.len() ==> {
                    let pair = normalize_spec(
                        old(self).active_ring.spec_values()[i],
                        target_ring.spec_values()[i],
                    );
                    &&& (#[trigger] final(self).active_interpolators@[i]).current_path@ == pair.0
                    &&& final(self).active_interpolators@[i].target_path@ == pair.1
                    &&& final(self).active_ring.spec_values()[i] == pair.0
                },
    {
        self.interpolate_instance = now;
        self.interpolate_duration = duration;
        let interpolators = self.get_interpolaror(target_ring);
        self.active_interpolators = interpolators;
    }

    /// The full pose at `time`: a pure per-frame query. The interpolation
    /// parameter is the elapsed time since the transition started, modulo
    /// the duration, so the morph repeats indefinitely as a sawtooth. It
    /// never fails on a validly constructed animator; with no transition
    /// in flight it reports an empty pose.
    pub fn get_path(&self, time: u64) -> (r: Vec<Vec<Point>>)
        requires
            self.wf(),
        ensures
            r@.len() == self.active_interpolators@.len(),
            r@.map_values(|v: Vec<Point>| v@) == pose_at(*self, time as int),
    {
        let elapsed: u64 = if time >= self.interpolate_instance {
            time - self.interpolate_instance
        } else {
            0
        };
        let t_den: u64 = if self.interpolate_duration == 0 {
            1
        } else {
            self.interpolate_duration
        };
        let t_num: u64 = if self.interpolate_duration == 0 {
            0
        } else {
            elapsed % self.interpolate_duration
        };
        proof {
            if self.interpolate_duration != 0 {
                vstd::arithmetic::div_mod::lemma_mod_pos_bound(
                    elapsed as int,
                    self.interpolate_duration as int,
                );
                if time < self.interpolate_instance {
                    vstd::arithmetic::div_mod::lemma_small_mod(
                        0nat,
                        self.interpolate_duration as nat,
                    );
                }
            }
            assert(t_num as int == wrapped_t_num(
                time as int,
                self.interpolate_instance as int,
                self.interpolate_duration as int,
            ));
        }
        let count = self.active_interpolators.len();
        let mut paths: Vec<Vec<Point>> = Vec::new();
        let mut idx: usize = 0;
        while idx < count
            invariant
                self.wf(),
                count == self.active_interpolators@.len(),
                1 <= t_den,
                t_num <= t_den,
                idx <= count,
                paths@.len() == idx,
                forall|j: int|
                    0 <= j < idx ==> (#[trigger] paths@[j])@ == interp_path(
                        self.active_interpolators@[j].current_path@,
                        self.active_interpolators@[j].target_path@,
                        t_num as int,
                        t_den as int,
                    ),
            decreases count - idx,
        {
            let p = self.active_interpolators[idx].interpolate(t_num, t_den);
            paths.push(p);
            idx += 1;
        }
        proof {
            assert(paths@.map_values(|v: Vec<Point>| v@) =~= pose_at(*self, time as int));
        }
        paths
    }
}

/// Resampling keeps a sub-path acceptable: the original points are all
/// kept, so two distinct points remain.
proof fn lemma_wf_after_resample(old_p: Seq<Point>, new_p: Seq<Point>)
    requires
        wf_subpath(old_p),
        is_subseq_of(old_p, new_p),
        valid_path(new_p),
        old_p.len() <= new_p.len() <= MAX_PATH_POINTS,
    ensures
        wf_subpath(new_p),
{
    lemma_subseq_contains(old_p, new_p);
    let i = choose|i: int| 0 <= i < old_p.len() && #[trigger] old_p[i] != old_p[0];
    assert(old_p.contains(old_p[i]));
    assert(old_p.contains(old_p[0]));
    let a = choose|a: int| 0 <= a < new_p.len() && new_p[a] == old_p[i];
    let b = choose|b: int| 0 <= b < new_p.len() && new_p[b] == old_p[0];
    if new_p[a] != new_p[0] {
        assert(exists|j: int| 0 <= j < new_p.len() && #[trigger] new_p[j] != new_p[0]);
    } else {
        assert(new_p[b] != new_p[0]);
        assert(exists|j: int| 0 <= j < new_p.len() && #[trigger] new_p[j] != new_p[0]);
    }
}

/// A cyclic rotation of an acceptable sub-path is acceptable.
proof fn lemma_wf_subpath_rotate(s: Seq<Point>, k: int)
    requires
        wf_subpath(s),
        0 <= k < s.len(),
    ensures
        wf_subpath(rotate_seq(s, k)),
{
    let n = s.len() as int;
    let r = rotate_seq(s, k);
    assert forall|x: int| 0 <= x < n implies valid_point(#[trigger] r[x]) by {
        vstd::arithmetic::div_mod::lemma_mod_pos_bound(x + k, n);
    }
    let i = choose|i: int| 0 <= i < n && #[trigger] s[i] != s[0];
    let i1 = (i - k) % n;
    let i2 = (0 - k) % n;
    vstd::arithmetic::div_mod::lemma_mod_bound(i - k, n);
    vstd::arithmetic::div_mod::lemma_mod_bound(0 - k, n);
    vstd::arithmetic::div_mod::lemma_small_mod(k as nat, n as nat);
    vstd::arithmetic::div_mod::lemma_small_mod(i as nat, n as nat);
    vstd::arithmetic::div_mod::lemma_small_mod(0nat, n as nat);
    vstd::arithmetic::div_mod::lemma_add_mod_noop(i - k, k, n);
    vstd::arithmetic::div_mod::lemma_mod_twice(i - k, n);
    vstd::arithmetic::div_mod::lemma_add_mod_noop(0 - k, k, n);
    vstd::arithmetic::div_mod::lemma_mod_twice(0 - k, n);
    assert(r[i1] == s[(i1 + k) % n]);
    assert((i1 + k) % n == i);
    assert(r[i2] == s[(i2 + k) % n]);
    assert((i2 + k) % n == 0);
    if r[i1] != r[0] {
        assert(exists|j: int| 0 <= j < n && #[trigger] r[j] != r[0]);
    } else {
        assert(r[i2] != r[0]);
        assert(exists|j: int| 0 <= j < n && #[trigger] r[j] != r[0]);
    }
}

/// Immediately after a transition starts, the reported pose equals the
/// interpolators' current sub-paths (the post-normalization current
/// pose), exactly.
pub proof fn lemma_pose_at_start(a: Animator)
    requires
        a.wf(),
    ensures
        pose_at(a, a.interpolate_instance as int) == Seq::new(
            a.active_interpolators@.len(),
            |i: int| a.active_interpolators@[i].current_path@,
        ),
{
    let den = if a.interpolate_duration == 0 {
        1int
    } else {
        a.interpolate_duration as int
    };
    if a.interpolate_duration != 0 {
        vstd::arithmetic::div_mod::lemma_small_mod(0nat, a.interpolate_duration as nat);
    }
    assert(wrapped_t_num(
        a.interpolate_instance as int,
        a.interpolate_instance as int,
        a.interpolate_duration as int,
    ) == 0);
    assert forall|i: int| 0 <= i < a.active_interpolators@.len() implies pose_at(
        a,
        a.interpolate_instance as int,
    )[i] == a.active_interpolators@[i].current_path@ by {
        lemma_interp_path_endpoints(
            a.active_interpolators@[i].current_path@,
            a.active_interpolators@[i].target_path@,
            den,
        );
    }
    assert(pose_at(a, a.interpolate_instance as int) =~= Seq::new(
        a.active_interpolators@.len(),
        |i: int| a.active_interpolators@[i].current_path@,
    ));
}

/// In the state `animate` leaves behind — one interpolator per sub-path,
/// each holding the normalized current sub-path that was also written
/// back into the active pose — the pose reported at the start timestamp
/// is exactly the stored active pose.
pub proof fn lemma_pose_after_transition(a: Animator)
    requires
        a.wf(),
        a.active_interpolators@.len() == a.active_ring.spec_values().len(),
        forall|i: int|
            0 <= i < a.active_interpolators@.len() ==> (
            #[trigger] a.active_interpolators@[i]).current_path@ == a.active_ring.spec_values()[i],
    ensures
        pose_at(a, a.interpolate_instance as int) == a.active_ring.spec_values(),
{
    lemma_pose_at_start(a);
    assert(Seq::new(
        a.active_interpolators@.len(),
        |i: int| a.active_interpolators@[i].current_path@,
    ) =~= a.active_ring.spec_values());
}

/// The reported pose is periodic: one full duration later the animator
/// reports the same pose again.
pub proof fn lemma_pose_periodic(a: Animator, time: int)
    requires
        a.wf(),
        time >= a.interpolate_instance as int,
    ensures
        pose_at(a, time + a.interpolate_duration as int) == pose_at(a, time),
{
    if a.interpolate_duration != 0 {
        let dur = a.interpolate_duration as int;
        let elapsed = time - a.interpolate_instance as int;
        vstd::arithmetic::div_mod::lemma_mod_add_multiples_vanish(elapsed, dur);
    }
    assert(pose_at(a, time + a.interpolate_duration as int) =~= pose_at(a, time));
}

/// Copies one sub-path.
pub fn clone_path(p: &Vec<Point>) -> (r: Vec<Point>)
    ensures
        r@ == p@,
{
    let mut r: Vec<Point> = Vec::new();
    let mut i: usize = 0;
    while i < p.len()
        invariant
            i <= p@.len(),
            r@ == p@.take(i as int),
        decreases p@.len() - i,
    {
        r.push(p[i]);
        proof {
            assert(r@ =~= p@.take(i as int + 1));
        }
        i += 1;
    }
    proof {
        assert(r@ =~= p@);
    }
    r
}

/// Copies a whole pose's point data.
pub fn clone_paths(v: &Vec<Vec<Point>>) -> (r: Vec<Vec<Point>>)
    ensures
        r@.len() == v@.len(),
        forall|i: int| 0 <= i < v@.len() ==> #[trigger] r@[i]@ == v@[i]@,
{
    let mut r: Vec<Vec<Point>> = Vec::new();
    let mut i: usize = 0;
    while i < v.len()
        invariant
            i <= v@.len(),
            r@.len() == i as int,
            forall|j: int| 0 <= j < i as int ==> #[trigger] r@[j]@ == v@[j]@,
        decreases v@.len() - i,
    {
        r.push(clone_path(&v[i]));
        i += 1;
    }
    r
}

} // verus!
