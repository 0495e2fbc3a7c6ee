use rtree::geometries::{BoundingRectangle, GeometryType, RtreeGeometry};

#[test]
fn test_mbr_creation() {
    let left = (5, 2);
    let right = (9, 7);
    let rect = BoundingRectangle::new(left, right);
    assert_eq!(rect.left, left);
    assert_eq!(rect.right, right);
    assert_eq!(rect.area, 20);
}

#[test]
fn test_generate_mbr() {
    let coords_rect = &vec![(2, 2), (6, 2), (6, 4), (2, 4), (2, 2)];
    let coords_line = &vec![(2, 2), (6, 4)];

    let rect_r = BoundingRectangle::generate_mbr(coords_rect);
    let rect_l = BoundingRectangle::generate_mbr(coords_line);

    assert_eq!(rect_r.left, (2, 2));
    assert_eq!(rect_r.right, (6, 4));

    assert_eq!(rect_l.left, (2, 2));
    assert_eq!(rect_r.right, (6, 4));
}

#[test]
fn test_overlap_rectangle() {
    let rect_1 = BoundingRectangle::new((2, 1), (5, 3));
    let rect_2 = BoundingRectangle::new((4, 2), (7, 4));

    let overlap = BoundingRectangle::overlap_rectangle(&rect_1, &rect_2);

    assert_eq!(overlap.left, (4, 2));
    assert_eq!(overlap.right, (5, 3));
}

#[test]
fn test_common_mbr() {
    let rect_1 = BoundingRectangle::new((2, 1), (5, 3));
    let rect_2 = BoundingRectangle::new((4, 2), (7, 4));
    let rect_3 = BoundingRectangle::new((3, 0), (6, 2));

    let common = BoundingRectangle::common_mbr(&vec![rect_1, rect_2, rect_3]);

    assert_eq!(common.left, (2, 0));
    assert_eq!(common.right, (7, 4));
}

#[test]
fn test_intersects() {
    let rect_1 = BoundingRectangle::new((2, 1), (5, 3));
    let rect_2 = BoundingRectangle::new((4, 2), (7, 4));
    let rect_3 = BoundingRectangle::new((3, 0), (6, 1));

    assert_eq!(rect_1.intersects(&rect_2), true);
    assert_eq!(rect_2.intersects(&rect_3), false);
    assert_eq!(rect_1.intersects(&rect_3), true);
}

#[test]
fn test_create_geometry() {
    let coords_line = vec![(2, 1), (5, 3)];
    let coords_rect = vec![(2, 2), (6, 2), (6, 4), (2, 4), (2, 2)];
    let coords_point = vec![(8, 6)];

    let line = RtreeGeometry::new(coords_line);
    let rect = RtreeGeometry::new(coords_rect);
    let point = RtreeGeometry::new(coords_point);

    assert_eq!(line.coordtype, GeometryType::Line);
    assert_eq!(rect.coordtype, GeometryType::Polygon);
    assert_eq!(point.coordtype, GeometryType::Point);

    assert_eq!(line.mbr.left, (2, 1));
    assert_eq!(line.mbr.right, (5, 3));

    assert_eq!(rect.mbr.left, (2, 2));
    assert_eq!(rect.mbr.right, (6, 4));

    assert_eq!(point.mbr.left, point.mbr.right);
}

#[test]
fn test_enclosing_contains_both() {
    let a = BoundingRectangle::new((2, 1), (5, 3));
    let b = BoundingRectangle::new((4, 2), (7, 4));
    let c = BoundingRectangle::common_mbr(&vec![a, b]);
    assert!(c.left.0 <= a.left.0 && c.left.1 <= a.left.1);
    assert!(c.left.0 <= b.left.0 && c.left.1 <= b.left.1);
    assert!(c.right.0 >= a.right.0 && c.right.1 >= a.right.1);
    assert!(c.right.0 >= b.right.0 && c.right.1 >= b.right.1);
    assert!(c.area >= a.area);
    assert!(c.area >= b.area);
    assert_eq!(c.left, (2, 1));
    assert_eq!(c.right, (7, 4));
    assert_eq!(c.area, 15);
}

#[test]
fn test_intersects_symmetry_and_boundary_touch() {
    let a = BoundingRectangle::new((2, 1), (5, 3));
    let b = BoundingRectangle::new((5, 1), (7, 3));
    assert_eq!(a.intersects(&b), true);
    assert_eq!(b.intersects(&a), true);
    let c = BoundingRectangle::new((6, 1), (7, 3));
    assert_eq!(a.intersects(&c), c.intersects(&a));
    assert_eq!(a.intersects(&c), false);
}

#[test]
fn test_overlap_negative_extent() {
    let a = BoundingRectangle::new((0, 0), (1, 1));
    let b = BoundingRectangle::new((3, 3), (4, 4));
    let overlap = BoundingRectangle::overlap_rectangle(&a, &b);
    assert_eq!(overlap.left, (3, 3));
    assert_eq!(overlap.right, (1, 1));
    assert_eq!(overlap.area, 4);
}

#[test]
fn test_point_geometry_corners() {
    let point = RtreeGeometry::new(vec![(8, 6)]);
    assert_eq!(point.coordtype, GeometryType::Point);
    assert_eq!(point.mbr.left, (8, 6));
    assert_eq!(point.mbr.right, (8, 6));
    assert_eq!(point.mbr.area, 0);
}

#[test]
fn test_generate_mbr_mixed_extrema() {
    // a single coordinate can set a new minimum on one axis and a new
    // maximum on the other in the same step
    let coords = vec![(0, 0), (-3, 5), (4, -2)];
    let rect = BoundingRectangle::generate_mbr(&coords);
    assert_eq!(rect.left, (-3, -2));
    assert_eq!(rect.right, (4, 5));
}

#[test]
fn test_fresh_identifiers() {
    let g = RtreeGeometry::new(vec![(1, 1)]);
    assert_eq!(g.id.len(), 36);
    let h = RtreeGeometry::new(vec![(1, 1)]);
    assert_eq!(h.id.len(), 36);
}
