//! Bounding volume math: unions, tileset boxes, corners, transforms.

use tile3d::volume::{
    box_to_tileset_box, bounds_of_points, compute_geometric_error_from_corners, corners_from_box,
    tile_world_bounds, transform_point, union_boxes, Aabb, Mat4, OrientedBox, Point3,
};

fn pt(x: i64, y: i64, z: i64) -> Point3 {
    Point3 { x, y, z }
}

fn aabb(min: (i64, i64, i64), max: (i64, i64, i64)) -> Aabb {
    Aabb { min: pt(min.0, min.1, min.2), max: pt(max.0, max.1, max.2) }
}

const M: i64 = 1_000_000;

#[test]
fn union_is_componentwise() {
    // the three cells of the reference scenario, in micro-meters
    let boxes = vec![
        aabb((0, 0, 0), (M, M, M)),
        aabb((M, 0, 0), (2 * M, M, M)),
        aabb((0, M, 0), (M, 2 * M, M)),
    ];
    let u = union_boxes(&boxes);
    assert_eq!(u, aabb((0, 0, 0), (2 * M, 2 * M, M)));
    for b in &boxes {
        assert!(u.min.x <= b.min.x && u.min.y <= b.min.y && u.min.z <= b.min.z);
        assert!(u.max.x >= b.max.x && u.max.y >= b.max.y && u.max.z >= b.max.z);
    }
}

#[test]
fn union_of_nothing_is_zero_box() {
    let u = union_boxes(&vec![]);
    assert_eq!(u, aabb((0, 0, 0), (0, 0, 0)));
}

#[test]
fn union_ignores_order() {
    let a = aabb((-M, 0, 0), (M, M, M));
    let b = aabb((0, -M, 0), (M, 2 * M, M));
    let c = aabb((0, 0, -M), (3 * M, M, M));
    let u1 = union_boxes(&vec![a, b, c]);
    let u2 = union_boxes(&vec![c, a, b]);
    assert_eq!(u1, u2);
}

#[test]
fn tileset_box_centers_and_halves() {
    // the scenario's union: center (1,1,0.5), half extents (1,1,0.5)
    let root = aabb((0, 0, 0), (2 * M, 2 * M, M));
    let tb = box_to_tileset_box(&root);
    assert_eq!(tb.center, pt(M, M, M / 2));
    assert_eq!(tb.axis_x, pt(M, 0, 0));
    assert_eq!(tb.axis_y, pt(0, M, 0));
    assert_eq!(tb.axis_z, pt(0, 0, M / 2));
}

#[test]
fn degenerate_box_has_zero_half_axes() {
    let tb = box_to_tileset_box(&aabb((M, M, M), (M, M, M)));
    assert_eq!(tb.center, pt(M, M, M));
    assert_eq!(tb.axis_x, pt(0, 0, 0));
    assert_eq!(tb.axis_y, pt(0, 0, 0));
    assert_eq!(tb.axis_z, pt(0, 0, 0));
}

#[test]
fn corners_round_trip_the_box() {
    let b = aabb((-2 * M, 0, 4 * M), (2 * M, 6 * M, 10 * M));
    let corners = corners_from_box(&box_to_tileset_box(&b));
    assert_eq!(corners.len(), 8);
    let bounds = bounds_of_points(&corners);
    assert_eq!(bounds, b);
}

#[test]
fn corner_order_is_sign_major() {
    let tb = OrientedBox {
        center: pt(0, 0, 0),
        axis_x: pt(M, 0, 0),
        axis_y: pt(0, M, 0),
        axis_z: pt(0, 0, M),
    };
    let corners = corners_from_box(&tb);
    assert_eq!(corners[0], pt(-M, -M, -M));
    assert_eq!(corners[1], pt(-M, -M, M));
    assert_eq!(corners[7], pt(M, M, M));
}

#[test]
fn corner_error_is_half_the_largest_span() {
    let corners = vec![pt(0, 0, 0), pt(4 * M, M, 2 * M)];
    assert_eq!(compute_geometric_error_from_corners(&corners), 2 * M);
    assert_eq!(compute_geometric_error_from_corners(&vec![]), 0);
}

#[test]
fn transform_applies_rotation_scale_and_translation() {
    // identity rotation at nano scale, translation of one meter in x
    let m = Mat4 {
        r00: 1_000_000_000,
        r01: 0,
        r02: 0,
        r10: 0,
        r11: 1_000_000_000,
        r12: 0,
        r20: 0,
        r21: 0,
        r22: 1_000_000_000,
        t: pt(M, 0, 0),
    };
    let p = pt(2 * M, 3 * M, -4 * M);
    assert_eq!(transform_point(&m, &p), pt(3 * M, 3 * M, -4 * M));
}

#[test]
fn world_bounds_follow_the_transform() {
    let tb = OrientedBox {
        center: pt(0, 0, 0),
        axis_x: pt(M, 0, 0),
        axis_y: pt(0, M, 0),
        axis_z: pt(0, 0, M),
    };
    let m = Mat4 {
        r00: 1_000_000_000,
        r01: 0,
        r02: 0,
        r10: 0,
        r11: 1_000_000_000,
        r12: 0,
        r20: 0,
        r21: 0,
        r22: 1_000_000_000,
        t: pt(10 * M, 0, 0),
    };
    let (bounds, err) = tile_world_bounds(&tb, Some(&m));
    assert_eq!(bounds, aabb((9 * M, -M, -M), (11 * M, M, M)));
    assert_eq!(err, M);
    let (plain, _) = tile_world_bounds(&tb, None);
    assert_eq!(plain, aabb((-M, -M, -M), (M, M, M)));
}
