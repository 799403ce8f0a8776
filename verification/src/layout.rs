//! Viewport arithmetic for the three cameras.
//!
//! The window is shared by a 2D world camera, a 3D scene camera and a 2D
//! overlay camera: the world camera draws into the top-left quarter of the
//! window, while the scene camera and the overlay camera both draw into the
//! right half.

use vstd::prelude::*;

verus! {

/// A rectangle in physical window coordinates: the position of its top-left
/// corner and its size, in pixels.
#[derive(Clone, Copy, PartialEq, Eq, Structural, Debug)]
pub struct ViewportRect {
    pub x: u32,
    pub y: u32,
    pub width: u32,
    pub height: u32,
}

/// The viewports of the three cameras for one window size.
#[derive(Clone, Copy, PartialEq, Eq, Structural, Debug)]
pub struct CameraLayout {
    /// The 2D world camera: the top-left quarter of the window.
    pub world2d: ViewportRect,
    /// The 3D scene camera: the right half of the window.
    pub scene3d: ViewportRect,
    /// The 2D overlay camera: the right half of the window, over the scene.
    pub overlay: ViewportRect,
}

/// The viewport layout for a window of the given physical size, recomputed
/// whenever the window is created, resized or moved.
pub fn split_layout(width: u32, height: u32) -> (l: CameraLayout)
    ensures
        l.scene3d == (ViewportRect { x: width / 2, y: 0, width: width / 2, height: height }),
        l.overlay == l.scene3d,
        l.world2d == (ViewportRect { x: 0, y: 0, width: width / 2, height: height / 2 }),
{
    let right_half = ViewportRect { x: width / 2, y: 0, width: width / 2, height: height };
    CameraLayout {
        world2d: ViewportRect { x: 0, y: 0, width: width / 2, height: height / 2 },
        scene3d: right_half,
        overlay: right_half,
    }
}

} // verus!
