use vec_utils::intersection::{
    check_pair, check_planar_point, check_point, classify_section, same_circle, same_plane,
    IntersectionError, Placement, SectionKind,
};

#[test]
fn identical_geometries_are_reported_first() {
    assert_eq!(check_pair(true, true, false, false), Err(IntersectionError::EqualGeometries));
    assert_eq!(check_pair(true, false, true, true), Err(IntersectionError::EqualGeometries));
}

#[test]
fn circles_out_of_plane() {
    assert_eq!(check_pair(false, false, false, false), Err(IntersectionError::OutOfPlane));
    assert_eq!(check_pair(false, false, true, false), Err(IntersectionError::OutOfPlane));
}

#[test]
fn distance_checks_of_pairs() {
    assert_eq!(check_pair(false, true, true, false), Err(IntersectionError::TooFarApart));
    assert_eq!(check_pair(false, true, false, true), Err(IntersectionError::ContainedWithin));
    assert_eq!(check_pair(false, true, false, false), Ok(()));
}

#[test]
fn point_membership() {
    assert_eq!(check_point(Placement::OnBoundary, false), Ok(()));
    assert_eq!(check_point(Placement::Inside, true), Ok(()));
    assert_eq!(check_point(Placement::Inside, false), Err(IntersectionError::ContainedWithin));
    assert_eq!(check_point(Placement::Outside, true), Err(IntersectionError::TooFarApart));
    assert_eq!(check_planar_point(false, Placement::OnBoundary, true), Err(IntersectionError::OutOfPlane));
    assert_eq!(check_planar_point(true, Placement::Inside, true), Ok(()));
}

#[test]
fn sphere_sections() {
    assert_eq!(classify_section(true, false, false), Ok(SectionKind::GreatCircle));
    assert_eq!(classify_section(false, true, false), Err(IntersectionError::OutOfPlane));
    assert_eq!(classify_section(false, false, true), Ok(SectionKind::Tangent));
    assert_eq!(classify_section(false, false, false), Ok(SectionKind::Proper));
}

#[test]
fn circle_equality_ignores_orientation() {
    assert!(same_circle(true, true, false, true));
    assert!(same_circle(true, true, true, false));
    assert!(!same_circle(true, true, false, false));
    assert!(!same_circle(false, true, true, false));
    assert!(same_plane(false, true, true));
    assert!(!same_plane(true, false, false));
}

#[test]
fn error_messages() {
    assert_eq!(
        IntersectionError::TooFarApart.message(),
        "The given geometries are too far apart and do not intersect at all."
    );
    assert_eq!(IntersectionError::EqualGeometries.message(), "The given geometries are identical.");
    assert_eq!(
        IntersectionError::OutOfPlane.message(),
        "The given geometries are out of plane from each other"
    );
    assert!(IntersectionError::ContainedWithin.message().contains("contained entirely"));
}
