//! Which noded edges bound the result of an overlay.
//!
//! An overlay nodes the boundaries of its two inputs together and then
//! looks at each noded edge from both sides. Whether a side lies in the
//! subject and in the clip is the caller's geometric test; this module
//! decides, from those answers, whether the edge bounds the result and in
//! which direction it runs so that the result lies on its left.

use vstd::prelude::*;

verus! {

/// The two overlay operations.
#[derive(Debug, Clone, Copy, PartialEq, Eq, Structural)]
pub enum OverlayOp {
    /// Points in both inputs.
    Intersection,
    /// Points in the subject and not in the clip.
    Difference,
}

/// Whether a point lies in the result, given whether it lies in the subject
/// and in the clip.
pub open spec fn in_result(op: OverlayOp, in_subject: bool, in_clip: bool) -> bool {
    match op {
        OverlayOp::Intersection => in_subject && in_clip,
        OverlayOp::Difference => in_subject && !in_clip,
    }
}

/// The edge between `u` and `v` as a boundary of the result: directed from
/// `u` to `v` when only its left side is in the result, from `v` to `u`
/// when only its right side is, and no boundary when both sides agree.
pub open spec fn boundary_of(
    op: OverlayOp,
    u: usize,
    v: usize,
    left: (bool, bool),
    right: (bool, bool),
) -> Option<(usize, usize)> {
    let l = in_result(op, left.0, left.1);
    let r = in_result(op, right.0, right.1);
    if l && !r {
        Some((u, v))
    } else if r && !l {
        Some((v, u))
    } else {
        None
    }
}

impl OverlayOp {
    /// Whether a point that lies in the subject as `in_subject` says and in
    /// the clip as `in_clip` says lies in the result.
    pub fn contains(self, in_subject: bool, in_clip: bool) -> (r: bool)
        ensures
            r == in_result(self, in_subject, in_clip),
    {
        match self {
            OverlayOp::Intersection => in_subject && in_clip,
            OverlayOp::Difference => in_subject && !in_clip,
        }
    }
}

/// Classifies the edge from `u` to `v` by the membership of its two sides:
/// `left` and `right` each say whether a point just beside the edge lies in
/// the subject and in the clip.
pub fn boundary_edge(op: OverlayOp, u: usize, v: usize, left: (bool, bool), right: (bool, bool)) -> (edge: Option<
    (usize, usize),
>)
    ensures
        edge == boundary_of(op, u, v, left, right),
{
    let l = op.contains(left.0, left.1);
    let r = op.contains(right.0, right.1);
    if l && !r {
        Some((u, v))
    } else if r && !l {
        Some((v, u))
    } else {
        None
    }
}

/// An edge bounds the result exactly when its two sides differ in
/// membership, and a boundary edge always has the result on its left: the
/// left side of `u -> v` when it keeps that direction, the right side of
/// `u -> v` (the left of `v -> u`) when it is reversed.
pub proof fn lemma_boundary_has_result_on_left(
    op: OverlayOp,
    u: usize,
    v: usize,
    left: (bool, bool),
    right: (bool, bool),
)
    requires
        u != v,
    ensures
        boundary_of(op, u, v, left, right) is Some <==> in_result(op, left.0, left.1) != in_result(
            op,
            right.0,
            right.1,
        ),
        boundary_of(op, u, v, left, right) == Some((u, v)) ==> in_result(op, left.0, left.1) && !in_result(
            op,
            right.0,
            right.1,
        ),
        boundary_of(op, u, v, left, right) == Some((v, u)) ==> in_result(op, right.0, right.1) && !in_result(
            op,
            left.0,
            left.1,
        ),
        boundary_of(op, v, u, right, left) == boundary_of(op, u, v, left, right),
{
}

/// A point lies in an intersection exactly when it lies in both inputs, and
/// in a difference exactly when it lies in the subject and not in the clip.
pub proof fn lemma_overlay_membership(in_subject: bool, in_clip: bool)
    ensures
        in_result(OverlayOp::Intersection, in_subject, in_clip) == (in_subject && in_clip),
        in_result(OverlayOp::Difference, in_subject, in_clip) == (in_subject && !in_clip),
        in_result(OverlayOp::Intersection, in_subject, in_clip) ==> in_result(
            OverlayOp::Difference,
            in_subject,
            !in_clip,
        ),
{
}

/// An edge bounds an intersection exactly when one side lies in both inputs
/// and the other side does not, and bounds a difference exactly when one
/// side lies in the subject outside the clip and the other does not; the
/// edge then runs with that side on its left.
pub proof fn lemma_boundary_edges_of_overlays(u: usize, v: usize, left: (bool, bool), right: (bool, bool))
    requires
        u != v,
    ensures
        boundary_of(OverlayOp::Intersection, u, v, left, right) == if (left.0 && left.1) && !(right.0 && right.1) {
            Some((u, v))
        } else if (right.0 && right.1) && !(left.0 && left.1) {
            Some((v, u))
        } else {
            None
        },
        boundary_of(OverlayOp::Difference, u, v, left, right) == if (left.0 && !left.1) && !(right.0 && !right.1) {
            Some((u, v))
        } else if (right.0 && !right.1) && !(left.0 && !left.1) {
            Some((v, u))
        } else {
            None
        },
{
}

} // verus!
