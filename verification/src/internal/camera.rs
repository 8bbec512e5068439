use vstd::prelude::*;

verus! {

/// Where the view of the workspace is centred.
pub struct Camera {
    pub x: isize,
    pub y: isize,
}

impl Camera {
    /// A camera in the middle of the coordinate range.
    pub fn new() -> (r: Self)
        ensures
            r.x == 32767,
            r.y == 32767,
    {
        Camera { x: (u16::MAX / 2) as isize, y: (u16::MAX / 2) as isize }
    }
}

} // verus!
