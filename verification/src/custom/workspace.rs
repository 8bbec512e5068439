use vstd::prelude::*;

use crate::custom::block::Block;
use crate::custom::camera::Camera;

verus! {

/// The first version of the workspace: action blocks and inline blocks kept
/// apart, the logic that places them, and the camera.
pub struct WorkSpace<'a, L> {
    pub logic: &'a L,
    block_counter: usize,
    pub action_blocks: Vec<Block>,
    pub inline_blocks: Vec<Block>,
    pub camera: Camera,
}

impl<'a, L> WorkSpace<'a, L> {
    /// How many identifiers the workspace has handed out.
    pub closed spec fn counter(&self) -> usize {
        self.block_counter
    }

    /// The action blocks of the workspace.
    pub closed spec fn spec_action_blocks(&self) -> Seq<Block> {
        self.action_blocks@
    }

    /// The inline blocks of the workspace.
    pub closed spec fn spec_inline_blocks(&self) -> Seq<Block> {
        self.inline_blocks@
    }

    /// The camera position of the workspace.
    pub closed spec fn spec_camera(&self) -> (isize, isize) {
        (self.camera.x, self.camera.y)
    }

    /// The logic the workspace was made with.
    pub closed spec fn spec_logic(&self) -> &'a L {
        self.logic
    }

    /// An empty workspace that has handed out no identifier yet.
    pub fn new(logic: &'a L) -> (r: Self)
        ensures
            r.spec_logic() == logic,
            r.counter() == 0,
            r.spec_action_blocks().len() == 0,
            r.spec_inline_blocks().len() == 0,
            r.spec_camera() == (32767isize, 32767isize),
    {
        Self { logic, block_counter: 0, action_blocks: Vec::new(), inline_blocks: Vec::new(), camera: Camera::new() }
    }

    /// How many identifiers the workspace has handed out, the last one handed
    /// out where there was one.
    pub fn block_counter(&self) -> (r: usize)
        ensures
            r == self.counter(),
    {
        self.block_counter
    }

    /// Hands out the next identifier: one more than the last one.
    pub fn increment_block_id(&mut self) -> (r: usize)
        requires
            old(self).counter() < usize::MAX,
        ensures
            r == old(self).counter() + 1,
            final(self).counter() == r,
            final(self).spec_action_blocks() == old(self).spec_action_blocks(),
            final(self).spec_inline_blocks() == old(self).spec_inline_blocks(),
            final(self).spec_camera() == old(self).spec_camera(),
            final(self).spec_logic() == old(self).spec_logic(),
    {
        self.block_counter = self.block_counter + 1;
        self.block_counter
    }
}

} // verus!
