use vstd::prelude::*;

pub mod coordinates;
pub mod custom;
pub mod custom_id;
pub mod font;
pub mod internal;
pub mod logic;
pub mod render;
pub mod text;

verus! {

} // verus!
