//! Gizmo bookkeeping that needs no geometry: which part the pointer is
//! over, which part sets a tool shows, and the axes of a translate plane.
use vstd::prelude::*;
use crate::editor::state::Tool;

verus! {

/// Which gizmo part the pointer is over (hit-test result).
#[derive(Clone, Copy, Debug, PartialEq, Eq, Structural)]
pub enum GizmoHit {
    Axis(usize),
    Plane(usize),
    /// Camera-plane free move / gizmo center.
    Screen,
    Ring(usize),
    ScaleBox(usize),
    ScaleUniform,
    RectCorner(usize),
    /// Inside the rect-tool outline (drag to move).
    RectInside,
}

/// (translate, rotate, scale) gizmo sets shown by a tool.
pub open spec fn parts_of(tool: Tool) -> (bool, bool, bool) {
    match tool {
        Tool::Move => (true, false, false),
        Tool::Rotate => (false, true, false),
        Tool::Scale => (false, false, true),
        Tool::Transform => (true, true, true),
        _ => (false, false, false),
    }
}

/// Tool → which gizmo sets to draw and hit-test: (translate, rotate, scale).
pub fn tool_parts(tool: Tool) -> (r: (bool, bool, bool))
    ensures
        r == parts_of(tool),
{
    match tool {
        Tool::Move => (true, false, false),
        Tool::Rotate => (false, true, false),
        Tool::Scale => (false, false, true),
        Tool::Transform => (true, true, true),
        _ => (false, false, false),
    }
}

/// Axes of a translate plane: (first in-plane axis, second in-plane axis,
/// normal). Plane 0 is XY, 1 is XZ, anything else YZ.
pub fn plane_axes(plane: usize) -> (r: (usize, usize, usize))
    ensures
        plane == 0 ==> r == (0usize, 1usize, 2usize),
        plane == 1 ==> r == (0usize, 2usize, 1usize),
        plane >= 2 ==> r == (1usize, 2usize, 0usize),
{
    match plane {
        0 => (0, 1, 2),
        1 => (0, 2, 1),
        _ => (1, 2, 0),
    }
}

} // verus!
