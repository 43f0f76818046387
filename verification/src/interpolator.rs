//! One equalized (current, target) sub-path pair and its pointwise
//! interpolation.

use vstd::prelude::*;
use crate::geometry::{
    Point, interp_pt, interp_pt_exec, lemma_interp_one, lemma_interp_zero, valid_path,
};

verus! {

/// The whole path interpolated pointwise at fraction `num / den`.
pub open spec fn interp_path(c: Seq<Point>, t: Seq<Point>, num: int, den: int) -> Seq<Point> {
    Seq::new(t.len(), |i: int| interp_pt(c[i], t[i], num, den))
}

/// Owns one equalized (current, target) sub-path pair; created fresh per
/// transition and discarded when the next transition starts.
#[derive(Debug)]
pub struct Interpolator {
    pub current_path: Vec<Point>,
    pub target_path: Vec<Point>,
    pub target_size: usize,
}

impl Interpolator {
    /// Equal lengths, consistent cached size, coordinates in range.
    pub open spec fn wf(self) -> bool {
        &&& self.current_path@.len() == self.target_path@.len()
        &&& self.target_size == self.target_path@.len()
        &&& valid_path(self.current_path@)
        &&& valid_path(self.target_path@)
    }

    /// Builds the pair; the two sub-paths must already be equalized.
    pub fn new(current_path: Vec<Point>, target_path: Vec<Point>) -> (r: Interpolator)
        requires
            current_path@.len() == target_path@.len(),
            valid_path(current_path@),
            valid_path(target_path@),
        ensures
            r.wf(),
            r.current_path@ == current_path@,
            r.target_path@ == target_path@,
    {
        let target_size = target_path.len();
        Interpolator { current_path, target_path, target_size }
    }

    /// The sub-path a fraction `t_num / t_den` of the way from the current
    /// to the target path: point `i` is
    /// `current[i] + (target[i] - current[i]) * t_num / t_den`, coordinate
    /// by coordinate. Pure; the stored pair is not changed.
    pub fn interpolate(&self, t_num: u64, t_den: u64) -> (r: Vec<Point>)
        requires
            self.wf(),
            1 <= t_den,
            t_num <= t_den,
        ensures
            r@ == interp_path(self.current_path@, self.target_path@, t_num as int, t_den as int),
            valid_path(r@),
    {
        let mut target: Vec<Point> = Vec::new();
        let mut i: usize = 0;
        while i < self.target_size
            invariant
                self.wf(),
                1 <= t_den,
                t_num <= t_den,
                i <= self.target_size,
                target@.len() == i as int,
                forall|j: int|
                    0 <= j < i as int ==> target@[j] == interp_pt(
                        self.current_path@[j],
                        self.target_path@[j],
                        t_num as int,
                        t_den as int,
                    ),
                valid_path(target@),
            decreases self.target_size - i,
        {
            let p = interp_pt_exec(&self.current_path[i], &self.target_path[i], t_num, t_den);
            target.push(p);
            i += 1;
        }
        proof {
            assert(target@ =~= interp_path(
                self.current_path@,
                self.target_path@,
                t_num as int,
                t_den as int,
            ));
        }
        target
    }
}

/// Interpolating at fraction zero returns the current path exactly, and
/// at fraction one the target path exactly, pointwise.
pub proof fn lemma_interp_path_endpoints(c: Seq<Point>, t: Seq<Point>, den: int)
    requires
        den >= 1,
        c.len() == t.len(),
    ensures
        interp_path(c, t, 0, den) == c,
        interp_path(c, t, den, den) == t,
{
    assert forall|i: int| 0 <= i < t.len() implies interp_path(c, t, 0, den)[i] == c[i] by {
        lemma_interp_zero(c[i], t[i], den);
    }
    assert(interp_path(c, t, 0, den) =~= c);
    assert forall|i: int| 0 <= i < t.len() implies interp_path(c, t, den, den)[i] == t[i] by {
        lemma_interp_one(c[i], t[i], den);
    }
    assert(interp_path(c, t, den, den) =~= t);
}

} // verus!
