//! A rendered fragment: one state in the form that a format works with.

use vstd::prelude::*;

use crate::error::CrudError;
use crate::png::Raster;

verus! {

/// One state, rendered. A fragment is made from a state and never read back
/// into a history.
#[derive(Debug)]
pub enum Render {
    /// Text or markup.
    TxtState(String),
    /// An image of three bytes (red, green, blue) per pixel.
    PngState(Raster),
}

/// What a fragment holds, as plain values.
pub enum RenderView {
    /// Text or markup.
    Txt(Seq<char>),
    /// An image: width, height and the bytes of its pixels.
    Png(u32, u32, Seq<u8>),
}

impl View for Render {
    type V = RenderView;

    open spec fn view(&self) -> RenderView {
        match *self {
            Render::TxtState(text) => RenderView::Txt(text@),
            Render::PngState(raster) => RenderView::Png(raster.width, raster.height, raster.pixels@),
        }
    }
}

/// What a vector of fragments holds.
pub open spec fn renders_view(renders: Seq<Render>) -> Seq<RenderView> {
    Seq::new(renders.len(), |i: int| renders[i]@)
}

impl Render {
    /// The error of a format named `class` that was handed this fragment
    /// where it works with fragments of the kind `expected`.
    pub fn error(&self, class: &'static str, expected: &'static str) -> (e: CrudError)
        ensures
            e == (CrudError::CapabilityMismatch { class, expected }),
    {
        CrudError::CapabilityMismatch { class, expected }
    }
}

} // verus!
