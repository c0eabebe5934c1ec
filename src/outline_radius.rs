//! The `-moz-outline-radius` shorthand, which sets the radius of each corner
//! of an outline.

use vstd::prelude::*;

verus! {

/// The radii of the four corners of a box, as a border radius value gives
/// them.
pub struct BorderRadius<T> {
    pub top_left: T,
    pub top_right: T,
    pub bottom_right: T,
    pub bottom_left: T,
}

/// The longhands that the outline radius shorthand sets.
pub struct Longhands<T> {
    pub moz_outline_radius_topleft: T,
    pub moz_outline_radius_topright: T,
    pub moz_outline_radius_bottomright: T,
    pub moz_outline_radius_bottomleft: T,
}

/// Expands the radii of a parsed border radius into the four longhands, one
/// per corner.
pub fn parse_value<T>(radii: BorderRadius<T>) -> (r: Longhands<T>)
    ensures
        r.moz_outline_radius_topleft == radii.top_left,
        r.moz_outline_radius_topright == radii.top_right,
        r.moz_outline_radius_bottomright == radii.bottom_right,
        r.moz_outline_radius_bottomleft == radii.bottom_left,
{
    Longhands {
        moz_outline_radius_topleft: radii.top_left,
        moz_outline_radius_topright: radii.top_right,
        moz_outline_radius_bottomright: radii.bottom_right,
        moz_outline_radius_bottomleft: radii.bottom_left,
    }
}

} // verus!
