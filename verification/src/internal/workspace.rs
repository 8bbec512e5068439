use vstd::prelude::*;

use crate::internal::block::Block;
use crate::internal::camera::Camera;

verus! {

/// The blocks being edited, the logic that places them and the camera.
pub struct WorkSpace<'a, L> {
    pub logic: &'a L,
    block_counter: usize,
    pub blocks: Vec<Block>,
    pub camera: Camera,
}

impl<'a, L> WorkSpace<'a, L> {
    /// How many identifiers the workspace has handed out.
    pub closed spec fn counter(&self) -> usize {
        self.block_counter
    }

    /// The blocks of the workspace.
    pub closed spec fn spec_blocks(&self) -> Seq<Block> {
        self.blocks@
    }

    /// The camera position of the workspace.
    pub closed spec fn spec_camera(&self) -> (isize, isize) {
        (self.camera.x, self.camera.y)
    }

    /// The logic the workspace was made with.
    pub closed spec fn spec_logic(&self) -> &'a L {
        self.logic
    }

    /// An empty workspace that has handed out no identifier yet.
    pub fn new(logic: &'a L) -> (r: Self)
        ensures
            r.spec_logic() == logic,
            r.counter() == 0,
            r.spec_blocks().len() == 0,
            r.spec_camera() == (32767isize, 32767isize),
    {
        Self { logic, block_counter: 0, blocks: Vec::new(), camera: Camera::new() }
    }

    /// How many identifiers the workspace has handed out, the last one handed
    /// out where there was one.
    pub fn block_counter(&self) -> (r: usize)
        ensures
            r == self.counter(),
    {
        self.block_counter
    }

    /// Hands out the next identifier: one more than the last one.
    pub fn increment_block_id(&mut self) -> (r: usize)
        requires
            old(self).counter() < usize::MAX,
        ensures
            r == old(self).counter() + 1,
            final(self).counter() == r,
            final(self).spec_blocks() == old(self).spec_blocks(),
            final(self).spec_camera() == old(self).spec_camera(),
            final(self).spec_logic() == old(self).spec_logic(),
    {
        self.block_counter = self.block_counter + 1;
        self.block_counter
    }
}

/// Two identifiers handed out one after the other differ, the second being the larger.
pub proof fn lemma_ids_fresh<'a, L>(w0: WorkSpace<'a, L>, w1: WorkSpace<'a, L>, r1: usize, w2: WorkSpace<'a, L>, r2: usize)
    requires
        w0.counter() < usize::MAX,
        r1 == w0.counter() + 1,
        w1.counter() == r1,
        w1.counter() < usize::MAX,
        r2 == w1.counter() + 1,
        w2.counter() == r2,
    ensures
        r1 < r2,
{
}

} // verus!
