use gjk_collision::{
    apply_transform_collider, collision_update, gjk, gjk_outcome, Collider, GjkOutcome, Shapes,
    Vec3, COORD_LIMIT, FINE_SCALE,
};

// One unit of length is 100 grid units throughout.
const UNIT: i64 = 100;

fn cube_points(half: i64) -> Vec<Vec3> {
    let mut points = Vec::new();
    for (x, y, z) in [
        (1, 1, 1),
        (1, 1, -1),
        (1, -1, 1),
        (1, -1, -1),
        (-1, 1, 1),
        (-1, 1, -1),
        (-1, -1, 1),
        (-1, -1, -1),
    ] {
        points.push(Vec3::new(x * half, y * half, z * half));
    }
    points
}

fn placed(mut c: Collider, x: i64, y: i64, z: i64) -> Collider {
    assert!(c.apply_transform(Vec3::new(x, y, z)));
    c
}

fn cube_at(half: i64, x: i64, y: i64, z: i64) -> Collider {
    placed(Collider::poly_from_points(cube_points(half)), x, y, z)
}

fn sphere_at(radius: i64, x: i64, y: i64, z: i64) -> Collider {
    placed(Collider::sphere_from_radius(radius), x, y, z)
}

#[test]
fn support_test_when_local() {
    let cube = Collider::poly_from_points(cube_points(UNIT));
    let sphere = Collider::sphere_from_radius(3 * UNIT);

    assert_eq!(sphere.support(Vec3::new(0, 1, 0)), Vec3::new(0, 3 * UNIT, 0));
    assert_eq!(sphere.support(Vec3::new(0, 0, 10)), Vec3::new(0, 0, 3 * UNIT));
    assert_eq!(cube.support(Vec3::new(1, 1, 1)), Vec3::new(UNIT, UNIT, UNIT));
    assert_eq!(cube.support(Vec3::new(-1, 1, -1)), Vec3::new(-UNIT, UNIT, -UNIT));
}

#[test]
fn support_test_when_translated() {
    // Here one unit of length is 10 grid units, to keep the cube inside the coordinate range.
    let cube = cube_at(10, 1000, 2345, -630);
    let sphere = sphere_at(30, 2090, -122, 170);

    assert_eq!(sphere.support(Vec3::new(0, 1, 0)), Vec3::new(2090, -92, 170));
    assert_eq!(sphere.support(Vec3::new(0, 0, 1)), Vec3::new(2090, -122, 200));
    assert_eq!(cube.support(Vec3::new(1, 1, 1)), Vec3::new(1010, 2355, -620));
    assert_eq!(cube.support(Vec3::new(-1, 1, -1)), Vec3::new(990, 2355, -640));
}

#[test]
fn cube_intersect_cube() {
    let cube1 = cube_at(UNIT, 150, 150, 150);
    let cube2 = Collider::poly_from_points(cube_points(UNIT));
    assert!(gjk(&cube1, &cube2));
}

#[test]
fn cube_intersect_sphere() {
    let cube = cube_at(UNIT, 0, 250, 0);
    let sphere = Collider::sphere_from_radius(2 * UNIT);
    assert!(gjk(&cube, &sphere));
}

#[test]
fn sphere_intersect_sphere() {
    let a = sphere_at(UNIT, 0, 0, 0);
    let b = sphere_at(UNIT, 150, 0, 0);
    assert!(gjk(&a, &b));
    let c = sphere_at(UNIT, 100, 100, 100);
    assert!(gjk(&a, &c));
}

#[test]
fn close_but_no_intersection() {
    let a = sphere_at(UNIT, 0, 0, 0);
    let b = sphere_at(UNIT, 500, 0, 0);
    assert!(!gjk(&a, &b));
    let c = cube_at(UNIT, 0, 0, 0);
    let d = cube_at(UNIT, 0, 0, 210);
    assert!(!gjk(&c, &d));
}

#[test]
fn sphere_support_axis_directions() {
    let s = sphere_at(250, 40, -70, 90);
    assert_eq!(s.support(Vec3::new(7, 0, 0)), Vec3::new(290, -70, 90));
    assert_eq!(s.support(Vec3::new(-7, 0, 0)), Vec3::new(-210, -70, 90));
    assert_eq!(s.support(Vec3::new(0, -3, 0)), Vec3::new(40, -320, 90));
    assert_eq!(s.support(Vec3::new(0, 0, -1000)), Vec3::new(40, -70, -160));
}

#[test]
fn sphere_support_diagonal_direction() {
    // 100 / sqrt(3) = 57.7..., rounded toward zero.
    let s = Collider::sphere_from_radius(UNIT);
    assert_eq!(s.support(Vec3::new(1, 1, 1)), Vec3::new(57, 57, 57));
    assert_eq!(s.support(Vec3::new(-5, -5, -5)), Vec3::new(-57, -57, -57));
    // |(3, 4, 0)| = 5 exactly.
    assert_eq!(s.support(Vec3::new(3, 4, 0)), Vec3::new(60, 80, 0));
    // A zero direction falls back to the x axis.
    assert_eq!(s.support(Vec3::zero()), Vec3::new(UNIT, 0, 0));
}

#[test]
fn polyhedron_support_ties_take_first_vertex() {
    let cube = Collider::poly_from_points(cube_points(UNIT));
    assert_eq!(cube.support(Vec3::new(1, 0, 0)), Vec3::new(UNIT, UNIT, UNIT));
    assert_eq!(cube.support(Vec3::new(0, 0, -1)), Vec3::new(UNIT, UNIT, -UNIT));
}

#[test]
fn symmetric_verdicts() {
    let shapes = vec![
        cube_at(UNIT, 150, 150, 150),
        cube_at(UNIT, 0, 0, 0),
        cube_at(UNIT, 0, 250, 0),
        sphere_at(2 * UNIT, 0, 0, 0),
        sphere_at(UNIT, 500, 0, 0),
        sphere_at(UNIT, 0, 0, 310),
    ];
    for a in &shapes {
        for b in &shapes {
            assert_eq!(gjk(a, b), gjk(b, a));
        }
    }
}

#[test]
fn spheres_separation_and_touching() {
    let a = sphere_at(100, 0, 0, 0);
    assert!(!gjk(&a, &sphere_at(50, 151, 0, 0)));
    assert!(gjk(&a, &sphere_at(50, 149, 0, 0)));
    assert!(!gjk(&a, &sphere_at(50, 150, 0, 0)));
    assert!(!gjk(&a, &sphere_at(50, 0, -150, 0)));
    assert!(!gjk(&a, &sphere_at(50, 0, 0, 150)));
}

#[test]
fn identical_cubes_intersect() {
    let a = cube_at(UNIT, 30, -40, 50);
    let b = cube_at(UNIT, 30, -40, 50);
    assert!(gjk(&a, &b));
}

#[test]
fn cubes_apart_along_each_axis() {
    let a = cube_at(UNIT, 0, 0, 0);
    for (x, y, z) in [(350, 0, 0), (0, -350, 0), (0, 0, 350), (-350, 0, 0)] {
        assert!(!gjk(&a, &cube_at(UNIT, x, y, z)));
        assert!(!gjk(&cube_at(UNIT, x, y, z), &a));
    }
}

#[test]
fn repeated_calls_agree() {
    let a = cube_at(UNIT, 150, 150, 150);
    let b = sphere_at(2 * UNIT, 0, 0, 0);
    let first = gjk_outcome(&a, &b);
    for _ in 0..5 {
        assert_eq!(gjk_outcome(&a, &b), first);
        assert_eq!(gjk(&a, &b), first == GjkOutcome::Intersecting);
    }
}

#[test]
fn scenario_cubes_and_spheres() {
    assert!(gjk(&cube_at(UNIT, 150, 150, 150), &cube_at(UNIT, 0, 0, 0)));
    assert!(gjk(&cube_at(UNIT, 0, 250, 0), &sphere_at(2 * UNIT, 0, 0, 0)));
    assert!(!gjk(&sphere_at(UNIT, 0, 0, 0), &sphere_at(UNIT, 500, 0, 0)));
}

#[test]
fn separated_outcome_carries_direction() {
    let a = sphere_at(UNIT, 0, 0, 0);
    let b = sphere_at(UNIT, 500, 0, 0);
    match gjk_outcome(&a, &b) {
        GjkOutcome::Separated(d) => assert!(!d.is_zero()),
        other => panic!("expected a separating direction, got {:?}", other),
    }
}

#[test]
fn transform_moves_world_points() {
    let mut c = Collider::poly_from_points(cube_points(UNIT));
    assert!(c.apply_transform(Vec3::new(5, 6, 7)));
    assert_eq!(c.world_points()[0], Vec3::new(105, 106, 107));
    assert!(c.apply_transform(Vec3::new(-5, 0, 0)));
    assert_eq!(c.world_points()[7], Vec3::new(-105, -100, -100));
    assert_eq!(c.shape(), Shapes::Polyhedron);
}

#[test]
fn transform_out_of_range_changes_nothing() {
    let mut c = Collider::poly_from_points(cube_points(UNIT));
    assert!(c.apply_transform(Vec3::new(10, 0, 0)));
    assert!(!c.apply_transform(Vec3::new(COORD_LIMIT, 0, 0)));
    assert_eq!(c.world_points()[0], Vec3::new(110, 100, 100));
    assert!(!c.apply_transform(Vec3::new(0, i64::MIN, 0)));
    assert_eq!(c.world_points()[0], Vec3::new(110, 100, 100));
}

#[test]
fn transform_all_colliders() {
    let mut colliders = vec![
        Collider::poly_from_points(cube_points(UNIT)),
        Collider::sphere_from_radius(UNIT),
    ];
    let moves = vec![Vec3::new(0, 0, 0), Vec3::new(500, 0, 0)];
    assert!(apply_transform_collider(&mut colliders, &moves));
    assert_eq!(colliders[1].world_points()[0], Vec3::new(500, 0, 0));
    assert_eq!(colliders[1].shape(), Shapes::Sphere { radius: UNIT });
    let too_far = vec![Vec3::new(0, 0, 0), Vec3::new(COORD_LIMIT * 3, 0, 0)];
    assert!(!apply_transform_collider(&mut colliders, &too_far));
    assert_eq!(colliders[1].world_points()[0], Vec3::new(500, 0, 0));
}

#[test]
fn pairwise_driver_reports_each_pair_once() {
    let colliders = vec![
        cube_at(UNIT, 0, 0, 0),
        cube_at(UNIT, 150, 150, 150),
        sphere_at(UNIT, 600, 0, 0),
        sphere_at(UNIT, 650, 0, 0),
    ];
    let r = collision_update(&colliders);
    assert_eq!(
        r,
        vec![
            (0, 1, true),
            (0, 2, false),
            (0, 3, false),
            (1, 2, false),
            (1, 3, false),
            (2, 3, true),
        ]
    );
    assert!(collision_update(&vec![cube_at(UNIT, 0, 0, 0)]).is_empty());
}

#[test]
fn corner_contact_is_degenerate_not_intersecting() {
    let a = cube_at(UNIT, 0, 0, 0);
    let b = cube_at(UNIT, 200, 200, 200);
    assert_eq!(gjk_outcome(&a, &b), GjkOutcome::Degenerate);
    assert!(!gjk(&a, &b));
}

#[test]
fn cube_support_for_any_positive_scale() {
    let cube = cube_at(3, -40, 70, 9);
    assert_eq!(cube.support(Vec3::new(5000, 5000, 5000)), Vec3::new(-37, 73, 12));
    assert_eq!(cube.support(Vec3::new(-2, 2, -2)), Vec3::new(-43, 73, 6));
}

#[test]
fn small_overlapping_spheres_intersect() {
    // Distance sqrt(2) < 2: the balls overlap although their centres differ off the axes.
    let a = sphere_at(1, 0, 0, 0);
    let b = sphere_at(1, 1, 1, 0);
    assert!(gjk(&a, &b));
    assert!(gjk(&b, &a));
}

#[test]
fn spheres_near_the_touching_distance() {
    // |(100, 100, 0)|^2 = 20000 lies between 141^2 and 142^2.
    let a = sphere_at(71, 0, 0, 0);
    assert!(gjk(&a, &sphere_at(71, 100, 100, 0)));
    assert!(!gjk(&a, &sphere_at(70, 100, 100, 0)));
    assert!(matches!(gjk_outcome(&a, &sphere_at(71, 100, 100, 0)), GjkOutcome::Intersecting));
}

#[test]
fn fine_support_is_scaled_support() {
    let cube = cube_at(3, -40, 70, 9);
    assert_eq!(
        cube.fine_support(Vec3::new(1, 1, 1)),
        Vec3::new(-37 * FINE_SCALE, 73 * FINE_SCALE, 12 * FINE_SCALE)
    );
    let s = sphere_at(2, 5, 0, 0);
    assert_eq!(s.fine_support(Vec3::new(0, -4, 0)), Vec3::new(5 * FINE_SCALE, -2 * FINE_SCALE, 0));
}
