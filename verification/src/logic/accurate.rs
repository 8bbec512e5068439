use vstd::prelude::*;

verus! {

/// The placement logic that measures distances exactly.
pub struct LogicAccurate {}

/// The point lies inside the hole `(x0, y0, x1, y1)`: from `x0` and `y0`
/// included to `x1` and `y1` excluded.
pub open spec fn in_hole(x: isize, y: isize, hole: (isize, isize, isize, isize)) -> bool {
    x >= hole.0 && x < hole.2 && y >= hole.1 && y < hole.3
}

impl LogicAccurate {
    pub fn new() -> (r: Self) {
        LogicAccurate {}
    }

    /// Whether the point lies inside any of the holes.
    pub fn is_in_any_hole(&self, x: isize, y: isize, holes: &[(isize, isize, isize, isize)]) -> (r: bool)
        ensures
            r == exists|k: int| 0 <= k < holes@.len() && #[trigger] in_hole(x, y, holes@[k]),
    {
        let mut i: usize = 0;
        while i < holes.len()
            invariant
                i <= holes@.len(),
                forall|k: int| 0 <= k < i ==> !#[trigger] in_hole(x, y, holes@[k]),
            decreases holes@.len() - i,
        {
            let (hx0, hy0, hx1, hy1) = holes[i];
            if x >= hx0 && x < hx1 && y >= hy0 && y < hy1 {
                assert(in_hole(x, y, holes@[i as int]));
                return true;
            }
            i = i + 1;
        }
        false
    }
}

} // verus!
