//! View state: where the camera looks, in world-cell coordinates, and the
//! zoom level. Independent of any universe: simulation state and view state
//! are orthogonal.

use crate::config::{INITIAL_SCALE, MAX_SCALE, MIN_SCALE};
use vstd::prelude::*;

verus! {

/// The abstract state of a camera.
pub struct CameraView {
    pub x: int,
    pub y: int,
    pub scale: int,
}

impl CameraView {
    /// Where a fresh camera looks: the origin, at the initial zoom.
    pub open spec fn initial() -> CameraView {
        CameraView { x: 0, y: 0, scale: INITIAL_SCALE as int }
    }

    /// The camera moved by `(dx, dy)` world cells.
    pub open spec fn panned(self, dx: int, dy: int) -> CameraView {
        CameraView { x: self.x + dx, y: self.y + dy, scale: self.scale }
    }

    /// One zoom level in, unless already at `MIN_SCALE`.
    pub open spec fn zoomed_in(self) -> CameraView {
        CameraView {
            x: self.x,
            y: self.y,
            scale: if self.scale > MIN_SCALE { self.scale - 1 } else { self.scale },
        }
    }

    /// One zoom level out, unless already at `MAX_SCALE`.
    pub open spec fn zoomed_out(self) -> CameraView {
        CameraView {
            x: self.x,
            y: self.y,
            scale: if self.scale < MAX_SCALE { self.scale + 1 } else { self.scale },
        }
    }
}

/// Where the camera looks, and how far it is zoomed in: pixel size per
/// world cell is `1 << -scale`, with the scale kept between `MIN_SCALE` and
/// `MAX_SCALE`.
pub struct Camera {
    x: i32,
    y: i32,
    scale: i32,
}

impl View for Camera {
    type V = CameraView;

    closed spec fn view(&self) -> CameraView {
        CameraView { x: self.x as int, y: self.y as int, scale: self.scale as int }
    }
}

impl Camera {
    /// The zoom level stays within `MIN_SCALE..=MAX_SCALE`.
    #[verifier::type_invariant]
    closed spec fn scale_in_range(self) -> bool {
        MIN_SCALE <= self.scale <= MAX_SCALE
    }

    /// A camera at the origin, at the initial zoom level.
    pub fn new() -> (c: Camera)
        ensures
            c@ == CameraView::initial(),
    {
        Camera { x: 0, y: 0, scale: INITIAL_SCALE }
    }

    /// The world column the camera is centred on.
    pub fn x(&self) -> (x: i32)
        ensures
            x == self@.x,
    {
        self.x
    }

    /// The world row the camera is centred on.
    pub fn y(&self) -> (y: i32)
        ensures
            y == self@.y,
    {
        self.y
    }

    /// The zoom level, always within `MIN_SCALE..=MAX_SCALE`.
    pub fn scale(&self) -> (s: i32)
        ensures
            s == self@.scale,
            MIN_SCALE <= s <= MAX_SCALE,
    {
        proof {
            use_type_invariant(self);
        }
        self.scale
    }

    /// Moves the camera by `(dx, dy)` world cells.
    pub fn pan(&mut self, dx: i32, dy: i32)
        requires
            i32::MIN <= old(self)@.x + dx <= i32::MAX,
            i32::MIN <= old(self)@.y + dy <= i32::MAX,
        ensures
            final(self)@ == old(self)@.panned(dx as int, dy as int),
    {
        proof {
            use_type_invariant(&*self);
        }
        self.x = self.x + dx;
        self.y = self.y + dy;
    }

    /// Zooms in one level, unless already at `MIN_SCALE`.
    pub fn zoom_in(&mut self)
        ensures
            final(self)@ == old(self)@.zoomed_in(),
    {
        proof {
            use_type_invariant(&*self);
        }
        if self.scale > MIN_SCALE {
            self.scale = self.scale - 1;
        }
    }

    /// Zooms out one level, unless already at `MAX_SCALE`.
    pub fn zoom_out(&mut self)
        ensures
            final(self)@ == old(self)@.zoomed_out(),
    {
        proof {
            use_type_invariant(&*self);
        }
        if self.scale < MAX_SCALE {
            self.scale = self.scale + 1;
        }
    }
}

impl Default for Camera {
    fn default() -> (c: Camera)
        ensures
            c@ == CameraView::initial(),
    {
        Camera::new()
    }
}

/// Zooming in and then out again returns to the same view, unless the
/// camera was already fully zoomed in; and the other way round.
pub proof fn law_zoom_in_out_round_trip(v: CameraView)
    requires
        MIN_SCALE <= v.scale <= MAX_SCALE,
    ensures
        v.scale > MIN_SCALE ==> v.zoomed_in().zoomed_out() == v,
        v.scale < MAX_SCALE ==> v.zoomed_out().zoomed_in() == v,
{
}

/// Zoom stays clamped: zooming in at `MIN_SCALE` or out at `MAX_SCALE`
/// changes nothing, and zooming never leaves `MIN_SCALE..=MAX_SCALE`.
pub proof fn law_zoom_clamps(v: CameraView)
    requires
        MIN_SCALE <= v.scale <= MAX_SCALE,
    ensures
        v.scale == MIN_SCALE ==> v.zoomed_in() == v,
        v.scale == MAX_SCALE ==> v.zoomed_out() == v,
        MIN_SCALE <= v.zoomed_in().scale <= MAX_SCALE,
        MIN_SCALE <= v.zoomed_out().scale <= MAX_SCALE,
{
}

/// Pans accumulate: two pans move the camera by the sum of their deltas,
/// and panning never changes the zoom.
pub proof fn law_pans_accumulate(v: CameraView, dx1: int, dy1: int, dx2: int, dy2: int)
    ensures
        v.panned(dx1, dy1).panned(dx2, dy2) == v.panned(dx1 + dx2, dy1 + dy2),
        v.panned(dx1, dy1).scale == v.scale,
{
}

} // verus!
