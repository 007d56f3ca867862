//! Axis-aligned boxes: containment in a container and collision.
//!
//! A box is given by its extents and the position of its lower corner,
//! both along the width, height and depth axes, in this order.

use vstd::prelude::*;

verus! {

/// Whether the two boxes share more than a boundary point along `axis`.
/// Intervals are open: boxes that only touch do not overlap.
pub open spec fn axis_overlap(
    dim_a: Seq<u32>,
    pos_a: Seq<u32>,
    dim_b: Seq<u32>,
    pos_b: Seq<u32>,
    axis: int,
) -> bool {
    pos_a[axis] < pos_b[axis] + dim_b[axis] && pos_a[axis] + dim_a[axis] > pos_b[axis]
}

/// Whether the projections of the two boxes on the plane of the axes
/// `x` and `y` overlap.
pub open spec fn plane_overlap(
    dim_a: Seq<u32>,
    pos_a: Seq<u32>,
    dim_b: Seq<u32>,
    pos_b: Seq<u32>,
    x: int,
    y: int,
) -> bool {
    axis_overlap(dim_a, pos_a, dim_b, pos_b, x) && axis_overlap(dim_a, pos_a, dim_b, pos_b, y)
}

/// Two boxes intersect when their projections on all three coordinate
/// planes overlap.
pub open spec fn boxes_intersect(
    dim_a: Seq<u32>,
    pos_a: Seq<u32>,
    dim_b: Seq<u32>,
    pos_b: Seq<u32>,
) -> bool {
    plane_overlap(dim_a, pos_a, dim_b, pos_b, 0, 1)
        && plane_overlap(dim_a, pos_a, dim_b, pos_b, 1, 2)
        && plane_overlap(dim_a, pos_a, dim_b, pos_b, 0, 2)
}

/// Whether a box stays inside a container of the given size.
pub open spec fn inside(width: u32, height: u32, depth: u32, dim: Seq<u32>, pos: Seq<u32>) -> bool {
    pos[0] + dim[0] <= width && pos[1] + dim[1] <= height && pos[2] + dim[2] <= depth
}

/// Tests whether the projections of two boxes on the plane of the axes
/// `x` and `y` overlap.
pub fn check_rectangle_intersection(
    existing_item_dimension: &[u32; 3],
    existing_item_position: &[u32; 3],
    new_item_dimension: &[u32; 3],
    new_item_position: &[u32; 3],
    x: usize,
    y: usize,
) -> (r: bool)
    requires
        x < 3,
        y < 3,
    ensures
        r == plane_overlap(
            existing_item_dimension@,
            existing_item_position@,
            new_item_dimension@,
            new_item_position@,
            x as int,
            y as int,
        ),
{
    let existing_min_x: u64 = existing_item_position[x] as u64;
    let existing_max_x: u64 = existing_item_position[x] as u64 + existing_item_dimension[x] as u64;
    let existing_min_y: u64 = existing_item_position[y] as u64;
    let existing_max_y: u64 = existing_item_position[y] as u64 + existing_item_dimension[y] as u64;

    let new_min_x: u64 = new_item_position[x] as u64;
    let new_max_x: u64 = new_item_position[x] as u64 + new_item_dimension[x] as u64;
    let new_min_y: u64 = new_item_position[y] as u64;
    let new_max_y: u64 = new_item_position[y] as u64 + new_item_dimension[y] as u64;

    existing_min_x < new_max_x && existing_max_x > new_min_x && existing_min_y < new_max_y
        && existing_max_y > new_min_y
}

/// Tests whether a box stays inside a container of the given size.
pub fn check_inside(width: u32, height: u32, depth: u32, dim: &[u32; 3], pos: &[u32; 3]) -> (r: bool)
    ensures
        r == inside(width, height, depth, dim@, pos@),
{
    pos[0] as u64 + dim[0] as u64 <= width as u64 && pos[1] as u64 + dim[1] as u64 <= height as u64
        && pos[2] as u64 + dim[2] as u64 <= depth as u64
}

} // verus!
