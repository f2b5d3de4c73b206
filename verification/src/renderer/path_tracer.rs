use vstd::prelude::*;

verus! {

/// Side, in pixels, of the square tile that one compute workgroup shades.
pub const WORKGROUP_SIZE: u32 = 8;

/// Number of workgroups along an axis of `extent` pixels: the fewest tiles that
/// cover every pixel.
pub fn workgroup_count(extent: u32) -> (count: u32)
    ensures
        count * WORKGROUP_SIZE >= extent,
        count * WORKGROUP_SIZE < extent + WORKGROUP_SIZE,
{
    extent / WORKGROUP_SIZE + if extent % WORKGROUP_SIZE == 0 { 0 } else { 1 }
}

/// Workgroups to dispatch, along x and y, for a `width` by `height` result texture.
pub fn dispatch_size(width: u32, height: u32) -> (groups: (u32, u32))
    ensures
        groups.0 * WORKGROUP_SIZE >= width,
        groups.0 * WORKGROUP_SIZE < width + WORKGROUP_SIZE,
        groups.1 * WORKGROUP_SIZE >= height,
        groups.1 * WORKGROUP_SIZE < height + WORKGROUP_SIZE,
{
    (workgroup_count(width), workgroup_count(height))
}

} // verus!
