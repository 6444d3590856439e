//! What an overlay can do.

use vstd::prelude::*;

use crate::text::concat;
use crate::vision::cover;
use crate::vision::detection::{CoverRect, FrameData};
use crate::vision::geometry::{ColorRgb, ScreenRect};

verus! {

#[derive(Debug)]
pub enum OverlayError {
    CreationFailed(String),
    RenderFailed(String),
    Unsupported(String),
}

impl OverlayError {
    pub open spec fn text(&self) -> Seq<char> {
        match self {
            OverlayError::CreationFailed(s) => "Overlay creation failed: "@ + s@,
            OverlayError::RenderFailed(s) => "Rendering failed: "@ + s@,
            OverlayError::Unsupported(s) => "Unsupported: "@ + s@,
        }
    }

    /// The error in words.
    pub fn message(&self) -> (r: String)
        ensures
            r@ == self.text(),
    {
        match self {
            OverlayError::CreationFailed(s) => concat("Overlay creation failed: ", s.as_str()),
            OverlayError::RenderFailed(s) => concat("Rendering failed: ", s.as_str()),
            OverlayError::Unsupported(s) => concat("Unsupported: ", s.as_str()),
        }
    }
}

#[derive(Debug, PartialEq, Eq)]
pub enum OverlayCapability {
    Supported,
    Unsupported(String),
}

impl OverlayCapability {
    pub fn is_supported(&self) -> (r: bool)
        ensures
            r == (self is Supported),
    {
        matches!(self, OverlayCapability::Supported)
    }
}

impl Clone for OverlayCapability {
    fn clone(&self) -> (r: Self)
        ensures
            r == *self,
    {
        match self {
            OverlayCapability::Supported => OverlayCapability::Supported,
            OverlayCapability::Unsupported(s) => OverlayCapability::Unsupported(s.clone()),
        }
    }
}

/// Something that shows covers.
pub trait OverlayRenderer: Send + Sync {
    fn capability(&self) -> (r: OverlayCapability)
        default_ensures
            r is Supported,
    {
        OverlayCapability::Supported
    }

    fn initialize(&mut self, monitors: &[ScreenRect]) -> Result<(), OverlayError> {
        self.set_geometry(monitors)
    }

    fn update_covers(&mut self, covers: &[CoverRect], frame: &FrameData) -> Result<
        (),
        OverlayError,
    >;

    fn clear(&mut self) -> Result<(), OverlayError>;

    fn set_geometry(&mut self, monitors: &[ScreenRect]) -> Result<(), OverlayError>;

    fn shutdown(&mut self) -> Result<(), OverlayError> {
        self.clear()
    }
}

/// An overlay that keeps the covers without showing them.
pub struct CpuOverlayRenderer {
    covers: Vec<CoverRect>,
    solid_color: ColorRgb,
}

impl CpuOverlayRenderer {
    /// The covers that would be shown.
    pub closed spec fn shown(&self) -> Seq<crate::vision::detection::Cover> {
        cover::values(self.covers@)
    }

    pub closed spec fn color(&self) -> ColorRgb {
        self.solid_color
    }

    pub fn new(solid_color: ColorRgb) -> (r: Self)
        ensures
            r.shown().len() == 0,
            r.color() == solid_color,
    {
        CpuOverlayRenderer { covers: Vec::new(), solid_color }
    }
}

/// A list of covers, each copied.
pub fn copy_covers(covers: &[CoverRect]) -> (r: Vec<CoverRect>)
    ensures
        cover::values(r@) == cover::values(covers@),
{
    let mut r: Vec<CoverRect> = Vec::new();
    let mut i: usize = 0;
    while i < covers.len()
        invariant
            i <= covers.len(),
            r@.len() == i,
            forall|k: int| 0 <= k < i ==> (#[trigger] r@[k])@ == covers@[k]@,
        decreases covers.len() - i,
    {
        r.push(covers[i].clone());
        i = i + 1;
    }
    assert(cover::values(r@) =~= cover::values(covers@));
    r
}

impl OverlayRenderer for CpuOverlayRenderer {
    fn capability(&self) -> (r: OverlayCapability)
        ensures
            r is Supported,
    {
        OverlayCapability::Supported
    }

    fn initialize(&mut self, monitors: &[ScreenRect]) -> (r: Result<(), OverlayError>)
        ensures
            r is Ok,
            final(self).shown() == old(self).shown(),
            final(self).color() == old(self).color(),
    {
        self.set_geometry(monitors)
    }

    fn update_covers(&mut self, covers: &[CoverRect], frame: &FrameData) -> (r: Result<
        (),
        OverlayError,
    >)
        ensures
            r is Ok,
            final(self).shown() == cover::values(covers@),
            final(self).color() == old(self).color(),
    {
        self.covers = copy_covers(covers);
        Ok(())
    }

    fn clear(&mut self) -> (r: Result<(), OverlayError>)
        ensures
            r is Ok,
            final(self).shown().len() == 0,
            final(self).color() == old(self).color(),
    {
        self.covers.clear();
        Ok(())
    }

    fn set_geometry(&mut self, monitors: &[ScreenRect]) -> (r: Result<(), OverlayError>)
        ensures
            r is Ok,
            final(self).shown() == old(self).shown(),
            final(self).color() == old(self).color(),
    {
        Ok(())
    }

    fn shutdown(&mut self) -> (r: Result<(), OverlayError>)
        ensures
            r is Ok,
            final(self).shown().len() == 0,
            final(self).color() == old(self).color(),
    {
        self.clear()
    }
}

} // verus!
