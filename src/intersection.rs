//! Decision rules of the intersection engine.
//!
//! Every pairwise intersection of spheres, circles, planes and points reports
//! either a result or exactly one [`IntersectionError`]. The numeric work (center
//! distances, radii, tolerances) is done by the caller; the functions here take the
//! outcomes of those comparisons and decide, in the documented order, which result
//! or failure applies: identity first, then plane compatibility, then the
//! distance-based checks.
use vstd::prelude::*;

verus! {

/// Why two geometries have no finite intersection.
#[derive(Debug, Clone, Copy, PartialEq, Eq, Structural)]
pub enum IntersectionError {
    /// The geometries are too far apart to intersect at all. For planar
    /// geometries they lie in the same plane, or `OutOfPlane` would be reported.
    TooFarApart,
    /// One geometry lies entirely within the other: the surfaces do not meet.
    ContainedWithin,
    /// The geometries are identical, so the whole surface would intersect.
    EqualGeometries,
    /// The geometries do not lie in the same plane. Only planar geometries
    /// report this.
    OutOfPlane,
}

/// The human-readable text of each failure reason.
pub open spec fn error_message(e: IntersectionError) -> Seq<char> {
    match e {
        IntersectionError::TooFarApart => "The given geometries are too far apart and do not intersect at all."@,
        IntersectionError::ContainedWithin => "One of the given geometries is contained entirely within the other. The surfaces do not intersect."@,
        IntersectionError::EqualGeometries => "The given geometries are identical."@,
        IntersectionError::OutOfPlane => "The given geometries are out of plane from each other"@,
    }
}

impl IntersectionError {
    /// The human-readable description of this failure.
    pub fn message(&self) -> (r: &'static str)
        ensures
            r@ == error_message(*self),
    {
        match self {
            IntersectionError::TooFarApart => "The given geometries are too far apart and do not intersect at all.",
            IntersectionError::ContainedWithin => "One of the given geometries is contained entirely within the other. The surfaces do not intersect.",
            IntersectionError::EqualGeometries => "The given geometries are identical.",
            IntersectionError::OutOfPlane => "The given geometries are out of plane from each other",
        }
    }
}

/// Outcome of intersecting two round bodies (two spheres, or two circles), given
/// the comparisons the caller made:
/// - `identical`: the two geometries are equal;
/// - `coplanar`: they lie in one plane (always true for spheres);
/// - `too_far`: the distance between the centers exceeds the sum of the radii;
/// - `contained`: that distance is below the absolute difference of the radii.
pub open spec fn pair_verdict(identical: bool, coplanar: bool, too_far: bool, contained: bool) -> Result<(), IntersectionError> {
    if identical {
        Err(IntersectionError::EqualGeometries)
    } else if !coplanar {
        Err(IntersectionError::OutOfPlane)
    } else if too_far {
        Err(IntersectionError::TooFarApart)
    } else if contained {
        Err(IntersectionError::ContainedWithin)
    } else {
        Ok(())
    }
}

/// Decides whether two spheres or two circles meet, checking identity, then the
/// shared plane, then the distance of the centers. `Ok(())` means the closed-form
/// intersection applies.
pub fn check_pair(identical: bool, coplanar: bool, too_far: bool, contained: bool) -> (r: Result<(), IntersectionError>)
    ensures
        r == pair_verdict(identical, coplanar, too_far, contained),
        r is Ok <==> !identical && coplanar && !too_far && !contained,
{
    if identical {
        Err(IntersectionError::EqualGeometries)
    } else if !coplanar {
        Err(IntersectionError::OutOfPlane)
    } else if too_far {
        Err(IntersectionError::TooFarApart)
    } else if contained {
        Err(IntersectionError::ContainedWithin)
    } else {
        Ok(())
    }
}

/// Where a point lies relative to the rim of a circle or the surface of a sphere,
/// within the caller's tolerance.
#[derive(Debug, Clone, Copy, PartialEq, Eq, Structural)]
pub enum Placement {
    /// On the rim or surface.
    OnBoundary,
    /// Strictly inside.
    Inside,
    /// Strictly outside.
    Outside,
}

/// Outcome of testing a point against a circle or a sphere: a point on the
/// boundary always meets it, an inner point only when `inner` is set.
pub open spec fn point_verdict(placement: Placement, inner: bool) -> Result<(), IntersectionError> {
    match placement {
        Placement::OnBoundary => Ok(()),
        Placement::Inside => if inner {
            Ok(())
        } else {
            Err(IntersectionError::ContainedWithin)
        },
        Placement::Outside => Err(IntersectionError::TooFarApart),
    }
}

/// Decides whether a point meets a circle or a sphere, without any plane check.
pub fn check_point(placement: Placement, inner: bool) -> (r: Result<(), IntersectionError>)
    ensures
        r == point_verdict(placement, inner),
        r is Ok <==> (placement == Placement::OnBoundary || (placement == Placement::Inside && inner)),
{
    match placement {
        Placement::OnBoundary => Ok(()),
        Placement::Inside => {
            if inner {
                Ok(())
            } else {
                Err(IntersectionError::ContainedWithin)
            }
        },
        Placement::Outside => Err(IntersectionError::TooFarApart),
    }
}

/// Decides whether a point meets a circle: a point off the circle's plane is
/// `OutOfPlane`, otherwise the rule of [`check_point`] applies.
pub fn check_planar_point(in_plane: bool, placement: Placement, inner: bool) -> (r: Result<(), IntersectionError>)
    ensures
        r == (if in_plane {
            point_verdict(placement, inner)
        } else {
            Err(IntersectionError::OutOfPlane)
        }),
{
    if in_plane {
        check_point(placement, inner)
    } else {
        Err(IntersectionError::OutOfPlane)
    }
}

/// The shape of the section of a sphere by a plane.
#[derive(Debug, Clone, Copy, PartialEq, Eq, Structural)]
pub enum SectionKind {
    /// The center lies on the plane: the section is a great circle, with the
    /// sphere's center and radius.
    GreatCircle,
    /// The plane touches the sphere: the section is a single point, a circle of
    /// radius zero at the foot of the center on the plane.
    Tangent,
    /// An ordinary circle, centered at the foot of the center on the plane.
    Proper,
}

/// Outcome of cutting a sphere by a plane, given the caller's comparisons on the
/// signed distance `d` from the plane to the sphere's center:
/// - `center_on_plane`: `|d|` is within tolerance of zero;
/// - `beyond`: `|d|` exceeds the radius;
/// - `touching`: `d` is within tolerance of the radius.
pub open spec fn section_verdict(center_on_plane: bool, beyond: bool, touching: bool) -> Result<SectionKind, IntersectionError> {
    if center_on_plane {
        Ok(SectionKind::GreatCircle)
    } else if beyond {
        Err(IntersectionError::OutOfPlane)
    } else if touching {
        Ok(SectionKind::Tangent)
    } else {
        Ok(SectionKind::Proper)
    }
}

/// Decides which section a plane cuts from a sphere. The only failure is
/// `OutOfPlane`, when the plane passes the sphere by.
pub fn classify_section(center_on_plane: bool, beyond: bool, touching: bool) -> (r: Result<SectionKind, IntersectionError>)
    ensures
        r == section_verdict(center_on_plane, beyond, touching),
        r is Err <==> !center_on_plane && beyond,
{
    if center_on_plane {
        Ok(SectionKind::GreatCircle)
    } else if beyond {
        Err(IntersectionError::OutOfPlane)
    } else if touching {
        Ok(SectionKind::Tangent)
    } else {
        Ok(SectionKind::Proper)
    }
}

/// Two circles are the same geometric object when their centers and radii are
/// equal and their normals are equal or opposite: a circle has no handedness.
pub open spec fn circles_match(centers_equal: bool, radii_equal: bool, normals_equal: bool, normals_opposite: bool) -> bool {
    centers_equal && radii_equal && (normals_equal || normals_opposite)
}

/// Circle equality from the comparisons of its parts.
pub fn same_circle(centers_equal: bool, radii_equal: bool, normals_equal: bool, normals_opposite: bool) -> (r: bool)
    ensures
        r == circles_match(centers_equal, radii_equal, normals_equal, normals_opposite),
{
    centers_equal && radii_equal && (normals_equal || normals_opposite)
}

/// Two circles lie in one infinite plane when their normals are equal or
/// opposite and the planes through their centers have the same signed offset
/// from the origin.
pub open spec fn planes_match(normals_equal: bool, normals_opposite: bool, offsets_equal: bool) -> bool {
    (normals_equal || normals_opposite) && offsets_equal
}

/// Coplanarity of two circles from the comparisons of their normals and offsets.
pub fn same_plane(normals_equal: bool, normals_opposite: bool, offsets_equal: bool) -> (r: bool)
    ensures
        r == planes_match(normals_equal, normals_opposite, offsets_equal),
{
    (normals_equal || normals_opposite) && offsets_equal
}

/// For two distinct spheres, centers farther apart than the sum of the radii give
/// `TooFarApart`, and centers closer than the difference of the radii give
/// `ContainedWithin`. (A distance below the difference never exceeds the sum, so
/// the second case never meets the first.)
pub proof fn lemma_distinct_spheres_fail_by_distance(too_far: bool, contained: bool)
    ensures
        too_far ==> pair_verdict(false, true, too_far, contained) == Err::<(), IntersectionError>(IntersectionError::TooFarApart),
        contained && !too_far ==> pair_verdict(false, true, too_far, contained) == Err::<(), IntersectionError>(IntersectionError::ContainedWithin),
{
}

/// Circle equality does not depend on the orientation of the normal: reversing
/// one circle's normal turns "equal normals" into "opposite normals" and back,
/// and the verdict stays the same.
pub proof fn lemma_circle_match_ignores_orientation(centers_equal: bool, radii_equal: bool, normals_equal: bool, normals_opposite: bool)
    ensures
        circles_match(centers_equal, radii_equal, normals_equal, normals_opposite)
            == circles_match(centers_equal, radii_equal, normals_opposite, normals_equal),
{
}

} // verus!
