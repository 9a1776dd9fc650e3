//! Image handles and corner treatments: the parts of the drawing
//! vocabulary that are decisions rather than geometry.

use vstd::prelude::*;

verus! {

/// A handle to pixels the RENDERER owns. The list only records which
/// image a run samples.
#[derive(Clone, Copy, PartialEq, Eq, Debug, Structural)]
pub struct ImageId(pub u32);

/// The lowest handle of the reserved band. Everything at or above it is a
/// renderer instruction, not a texture: the glass ranks, the additive
/// pipeline and the frosted-glass handle.
pub const RESERVED_IMAGE_MIN: u32 = 0xffff_fff0;

/// The handle for frosted glass: a run tagged with it samples a blurred
/// copy of everything drawn before the first such run this frame; the
/// renderer draws it as glass rank 2.
pub const BLUR_IMAGE: u32 = 0xffff_ffff;

/// Glass at blur rank 1, 2 and 3: lightest to deepest.
pub const GLASS_RANK_1: u32 = 0xffff_fffe;

pub const GLASS_RANK_2: u32 = 0xffff_fffd;

pub const GLASS_RANK_3: u32 = 0xffff_fffc;

/// Additive blending over the glyph atlas: glow and bloom compose with
/// light instead of milk.
pub const ADD_ATLAS: u32 = 0xffff_fff7;

/// Every named handle is a renderer instruction, none of them a texture;
/// the glass ranks and the additive pipeline are distinct handles.
pub proof fn law_named_handles_are_reserved()
    ensures
        BLUR_IMAGE >= RESERVED_IMAGE_MIN,
        GLASS_RANK_1 >= RESERVED_IMAGE_MIN,
        GLASS_RANK_2 >= RESERVED_IMAGE_MIN,
        GLASS_RANK_3 >= RESERVED_IMAGE_MIN,
        ADD_ATLAS >= RESERVED_IMAGE_MIN,
        GLASS_RANK_1 != GLASS_RANK_2 && GLASS_RANK_2 != GLASS_RANK_3 && GLASS_RANK_1 != GLASS_RANK_3,
        ADD_ATLAS != GLASS_RANK_1 && ADD_ATLAS != GLASS_RANK_2 && ADD_ATLAS != GLASS_RANK_3,
{
}

/// Whether a handle is one of the reserved instructions rather than a
/// registered texture.
pub fn is_reserved(id: ImageId) -> (b: bool)
    ensures
        b == (id.0 >= RESERVED_IMAGE_MIN),
{
    id.0 >= RESERVED_IMAGE_MIN
}

/// Treatment of one rect corner — the vocabulary of the one tessellated
/// ring generator. There is no arc primitive and no mask-based corner.
#[derive(Clone, Copy, PartialEq, Eq, Debug, Structural)]
pub enum CornerStyle {
    Square,
    Round,
    Chamfer,
}

/// The corner a corner-mode token names: `current` is the index of the
/// word the theme wrote, and `vocabulary` the indices of `round` and
/// `chamfer` in that token's vocabulary (either may be missing). The word
/// `square`, and any word the vocabulary does not name, is a square
/// corner — the raw look of an unstyled rect.
pub fn cut_of(current: u16, vocabulary: (Option<u16>, Option<u16>)) -> (c: CornerStyle)
    ensures
        c == (if vocabulary.0 == Some(current) {
            CornerStyle::Round
        } else if vocabulary.1 == Some(current) {
            CornerStyle::Chamfer
        } else {
            CornerStyle::Square
        }),
{
    let (round, chamfer) = vocabulary;
    match (round, chamfer) {
        (Some(r), _) if r == current => CornerStyle::Round,
        (_, Some(c)) if c == current => CornerStyle::Chamfer,
        _ => CornerStyle::Square,
    }
}

} // verus!
