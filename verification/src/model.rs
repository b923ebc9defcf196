//! Model identifiers for the remote generation endpoints.

use vstd::prelude::*;

verus! {

/// Text generation model accepted by the text-completion endpoint.
#[derive(Clone, Copy, Debug, Eq, PartialEq, Ord, PartialOrd, Hash, Structural)]
pub enum TextModel {
    Variant2Period7B,
    Variant6Bv4,
    EuterpeV2,
    GenjiPython6b,
    GenjiJp6b,
    GenjiJp6bV2,
    KrakeV2,
    Hypebot,
    Infillmodel,
    Cassandra,
    Sigurd2Period9bV1,
    Blue,
    Red,
    Green,
    Purple,
    ClioV1,
    KayraV1,
}

impl Default for TextModel {
    /// The default text model is the newest one.
    fn default() -> (r: Self)
        ensures
            r == TextModel::KayraV1,
    {
        TextModel::KayraV1
    }
}

/// Image generation model accepted by the image endpoints.
#[derive(Clone, Copy, Debug, Eq, PartialEq, Ord, PartialOrd, Hash, Structural)]
pub enum ImageModel {
    NaiDiffusion,
    SafeDiffusion,
    NaiDiffusionFurry,
    Custom,
    NaiDiffusionInpainting,
    NaiDiffusion3Inpainting,
    SafeDiffusionInpainting,
    FurryDiffusionInpainting,
    KandinskyVanilla,
    NaiDiffusion2,
    NaiDiffusion3,
}

impl Default for ImageModel {
    /// The default image model is the newest general-purpose one.
    fn default() -> (r: Self)
        ensures
            r == ImageModel::NaiDiffusion3,
    {
        ImageModel::NaiDiffusion3
    }
}

} // verus!
