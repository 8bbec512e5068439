use vstd::prelude::*;

verus! {

/// Description of one input slot of a block.
#[derive(Debug, PartialEq)]
pub struct BlockInput {
    input_type: String,
    block_id: Option<usize>,
    literal_allowed: Vec<String>,
    literal_return: Vec<String>,
}

/// The two input slots agree in every field.
pub open spec fn same_input(a: BlockInput, b: BlockInput) -> bool {
    &&& a.spec_input_type() == b.spec_input_type()
    &&& a.spec_block_id() == b.spec_block_id()
    &&& a.spec_literal_allowed() == b.spec_literal_allowed()
    &&& a.spec_literal_return() == b.spec_literal_return()
}

fn clone_strings(v: &Vec<String>) -> (r: Vec<String>)
    ensures
        r@ == v@,
{
    let r = v.clone();
    proof {
        assert forall|i: int| 0 <= i < v@.len() implies r@[i] == v@[i] by {
            assert(cloned::<String>(v[i], r[i]));
        }
        assert(v@ =~= r@);
    }
    r
}

/// Copies a list of input slots, each slot agreeing in every field with the one it copies.
pub fn clone_inputs(v: &Vec<BlockInput>) -> (r: Vec<BlockInput>)
    ensures
        r@.len() == v@.len(),
        forall|i: int| 0 <= i < v@.len() ==> #[trigger] same_input(r@[i], v@[i]),
{
    let r = v.clone();
    proof {
        assert forall|i: int| 0 <= i < v@.len() implies #[trigger] same_input(r@[i], v@[i]) by {
            assert(cloned::<BlockInput>(v[i], r[i]));
        }
    }
    r
}

impl Clone for BlockInput {
    fn clone(&self) -> (r: Self)
        ensures
            same_input(r, *self),
    {
        BlockInput {
            input_type: self.input_type.clone(),
            block_id: self.block_id,
            literal_allowed: clone_strings(&self.literal_allowed),
            literal_return: clone_strings(&self.literal_return),
        }
    }
}

impl BlockInput {
    /// The kind of value the slot takes.
    pub closed spec fn spec_input_type(&self) -> Seq<char> {
        self.input_type@
    }

    /// The block the slot is tied to, if any.
    pub closed spec fn spec_block_id(&self) -> Option<usize> {
        self.block_id
    }

    /// The literals the slot accepts.
    pub closed spec fn spec_literal_allowed(&self) -> Seq<Seq<char>> {
        self.literal_allowed@.map_values(|l: String| l@)
    }

    /// What each accepted literal stands for, position by position.
    pub closed spec fn spec_literal_return(&self) -> Seq<Seq<char>> {
        self.literal_return@.map_values(|l: String| l@)
    }

    /// Builds an input slot; the two literal lists must be as long as each other.
    pub fn new(
        input_type: String,
        block_id: Option<usize>,
        literal_allowed: Vec<String>,
        literal_return: Vec<String>,
    ) -> (r: Result<Self, &'static str>)
        ensures
            r is Err <==> literal_allowed@.len() != literal_return@.len(),
            r matches Err(e) ==> e == "expected and expected_return must have the same length",
            r matches Ok(b) ==> {
                &&& b.spec_input_type() == input_type@
                &&& b.spec_block_id() == block_id
                &&& b.spec_literal_allowed() == literal_allowed@.map_values(|l: String| l@)
                &&& b.spec_literal_return() == literal_return@.map_values(|l: String| l@)
            },
    {
        if literal_allowed.len() != literal_return.len() {
            return Err("expected and expected_return must have the same length");
        }
        Ok(Self { block_id, input_type, literal_allowed, literal_return })
    }

    /// Width of the slot when drawn, in pixels: 20 for a free slot, 10 for one
    /// tied to a block.
    pub fn get_width(&self) -> (r: u32)
        ensures
            r == if self.spec_block_id() is None { 20u32 } else { 10u32 },
    {
        if self.block_id.is_none() {
            return 20;
        }
        10
    }
}

} // verus!
