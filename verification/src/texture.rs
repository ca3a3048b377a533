//! Embedded textures, kept compressed as the container stores them.

use vstd::prelude::*;
use crate::error::PuppetError;

verus! {

/// The format tag of a PNG texture.
pub const TAG_PNG: u8 = 0;

/// The format tag of a TGA texture.
pub const TAG_TGA: u8 = 1;

/// The format tag of a block-compressed (BC7) texture.
pub const TAG_BC7: u8 = 2;

/// A texture as it lies in the container: its format and its bytes, which
/// an image codec outside this library decompresses.
#[derive(Clone, Debug, PartialEq, Eq)]
pub enum CompressedTexture {
    Png(Vec<u8>),
    Tga(Vec<u8>),
    Bc7(Vec<u8>),
}

/// What a texture is, apart from how it is stored: its tag and its bytes.
pub struct TextureView {
    pub tag: u8,
    pub data: Seq<u8>,
}

impl View for CompressedTexture {
    type V = TextureView;

    open spec fn view(&self) -> TextureView {
        match self {
            CompressedTexture::Png(d) => TextureView { tag: TAG_PNG, data: d@ },
            CompressedTexture::Tga(d) => TextureView { tag: TAG_TGA, data: d@ },
            CompressedTexture::Bc7(d) => TextureView { tag: TAG_BC7, data: d@ },
        }
    }
}

/// The view of each texture of a sequence, in order.
pub open spec fn texture_views(textures: Seq<CompressedTexture>) -> Seq<TextureView> {
    Seq::new(textures.len(), |i: int| textures[i]@)
}

impl CompressedTexture {
    /// The texture with format tag `tag` and bytes `data`; tags other than
    /// 0, 1 and 2 name no format.
    pub fn from_tag(tag: u8, data: Vec<u8>) -> (res: Result<CompressedTexture, PuppetError>)
        ensures
            match res {
                Ok(t) => tag <= TAG_BC7 && t@ == (TextureView { tag, data: data@ }),
                Err(e) => tag > TAG_BC7 && e == PuppetError::UnsupportedTextureFormat,
            },
    {
        if tag == TAG_PNG {
            Ok(CompressedTexture::Png(data))
        } else if tag == TAG_TGA {
            Ok(CompressedTexture::Tga(data))
        } else if tag == TAG_BC7 {
            Ok(CompressedTexture::Bc7(data))
        } else {
            Err(PuppetError::UnsupportedTextureFormat)
        }
    }

    /// The format tag under which the container stores this texture.
    pub fn format_tag(&self) -> (tag: u8)
        ensures
            tag == self@.tag,
            tag <= TAG_BC7,
    {
        match self {
            CompressedTexture::Png(_) => TAG_PNG,
            CompressedTexture::Tga(_) => TAG_TGA,
            CompressedTexture::Bc7(_) => TAG_BC7,
        }
    }

    /// The compressed bytes.
    pub fn data(&self) -> (data: &Vec<u8>)
        ensures
            data@ == self@.data,
    {
        match self {
            CompressedTexture::Png(d) => d,
            CompressedTexture::Tga(d) => d,
            CompressedTexture::Bc7(d) => d,
        }
    }
}

} // verus!
