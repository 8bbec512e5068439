use vstd::prelude::*;

verus! {

/// A font that `fontdue` has read, with the outlines of its glyphs.
#[verifier::external_type_specification]
#[verifier::external_body]
pub struct ExFont(fontdue::Font);

/// Whether `fontdue` reads `data` as a font, with its default settings.
pub uninterp spec fn font_parses(data: Seq<u8>) -> bool;

/// Calls `fontdue::Font::from_bytes` with the default settings. What it
/// returns depends on the bytes alone: they are hashed, parsed as a TrueType or
/// OpenType face and its glyphs are loaded, with no randomness, clock or
/// outside state; the contract names whether that succeeds. Where the bytes
/// are not a font, the function returns an error, which becomes none here.
/// Nothing is said of the font it returns.
#[verifier::external_body]
fn font_from_bytes(data: Vec<u8>) -> (r: Option<fontdue::Font>)
    ensures
        r is Some <==> font_parses(data@),
{
    fontdue::Font::from_bytes(data, fontdue::FontSettings::default()).ok()
}

/// Reads the bytes of a font file as a font; none where they are not one.
pub fn load_font(data: Vec<u8>) -> (r: Option<fontdue::Font>)
    ensures
        r is Some <==> font_parses(data@),
{
    font_from_bytes(data)
}

} // verus!
