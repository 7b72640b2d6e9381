use c2::{Capsule, Circle, Poly, Ray, Rotation, ShapeError, Transformation, Vec2, AABB};

#[test]
fn vectors_hold_their_coordinates() {
    let mut v = Vec2::new(3, -4);
    assert_eq!(v.x(), 3);
    assert_eq!(v.y(), -4);
    v.set_x(7);
    v.set_y(9);
    assert_eq!(v, Vec2::new(7, 9));
    assert_eq!(Vec2::from([1, 2]), Vec2::new(1, 2));
}

#[test]
fn a_negative_radius_is_refused() {
    assert_eq!(Circle::new([0, 0], -1).unwrap_err(), ShapeError::NegativeRadius);
    assert_eq!(Capsule::new([0, 0], [1, 1], -5).unwrap_err(), ShapeError::NegativeRadius);
}

#[test]
fn coordinates_beyond_the_limit_are_refused() {
    assert_eq!(Circle::new([65537, 0], 1).unwrap_err(), ShapeError::OutOfRange);
    assert_eq!(Circle::new([0, 0], 65537).unwrap_err(), ShapeError::OutOfRange);
    assert!(Circle::new([65536, -65536], 65536).is_ok());
    assert_eq!(AABB::new([0, 0], [0, 70000]).unwrap_err(), ShapeError::OutOfRange);
    assert_eq!(Capsule::new([0, 0], [-70000, 0], 1).unwrap_err(), ShapeError::OutOfRange);
    assert_eq!(
        Transformation::new([70000, 0], Rotation::zero()).unwrap_err(),
        ShapeError::OutOfRange
    );
    assert_eq!(Ray::new([0, 0], [70000, 0]).err(), Some(ShapeError::OutOfRange));
    assert_eq!(
        Poly::from_slice(&[[0, 0], [70000, 0], [0, 5]]).unwrap_err(),
        ShapeError::OutOfRange
    );
}

#[test]
fn a_box_with_its_corners_the_wrong_way_round_is_refused() {
    assert_eq!(AABB::new([3, 0], [1, 5]).unwrap_err(), ShapeError::InvertedBounds);
    assert_eq!(AABB::new([0, 5], [1, 4]).unwrap_err(), ShapeError::InvertedBounds);
    let b = AABB::new([1, 2], [3, 4]).unwrap();
    assert_eq!(b.min(), Vec2::new(1, 2));
    assert_eq!(b.max(), Vec2::new(3, 4));
}

#[test]
fn points_on_one_line_make_no_polygon() {
    assert_eq!(Poly::from_slice(&[[0, 0], [1, 1], [2, 2], [5, 5]]).unwrap_err(), ShapeError::Degenerate);
    assert_eq!(Poly::from_slice(&[[0, 0], [1, 1]]).unwrap_err(), ShapeError::Degenerate);
    let none: [[i64; 2]; 0] = [];
    assert_eq!(Poly::from_slice(&none).unwrap_err(), ShapeError::Degenerate);
    assert_eq!(Poly::from_slice(&[[3, 3], [3, 3], [3, 3]]).unwrap_err(), ShapeError::Degenerate);
}

fn vertices(p: Poly) -> Vec<Vec2> {
    let mut v = Vec::new();
    for i in 0..p.count() {
        v.push(p.get_vert(i));
    }
    v
}

#[test]
fn a_polygon_keeps_convex_vertices_in_order() {
    let p = Poly::from_slice(&[[-1, -3], [1, -3], [1, 0], [0, 1], [-1, 0]]).unwrap();
    assert_eq!(p.count(), 5);
    assert_eq!(
        vertices(p),
        vec![
            Vec2::new(-1, -3),
            Vec2::new(1, -3),
            Vec2::new(1, 0),
            Vec2::new(0, 1),
            Vec2::new(-1, 0)
        ]
    );
}

#[test]
fn a_polygon_is_the_hull_of_its_points_in_any_order() {
    let p = Poly::from_slice(&[[0, 1], [1, -3], [-1, 0], [1, 0], [-1, -3]]).unwrap();
    assert_eq!(
        vertices(p),
        vec![
            Vec2::new(-1, -3),
            Vec2::new(1, -3),
            Vec2::new(1, 0),
            Vec2::new(0, 1),
            Vec2::new(-1, 0)
        ]
    );
    let clockwise = Poly::from_slice(&[[0, 0], [0, 4], [4, 4], [4, 0]]).unwrap();
    assert_eq!(
        vertices(clockwise),
        vec![Vec2::new(0, 0), Vec2::new(4, 0), Vec2::new(4, 4), Vec2::new(0, 4)]
    );
}

#[test]
fn a_polygon_drops_points_inside_and_on_its_edges() {
    let p = Poly::from_slice(&[[0, 0], [2, 0], [4, 0], [4, 4], [2, 2], [0, 4], [0, 2]]).unwrap();
    assert_eq!(
        vertices(p),
        vec![Vec2::new(0, 0), Vec2::new(4, 0), Vec2::new(4, 4), Vec2::new(0, 4)]
    );
}

#[test]
fn a_polygon_takes_the_first_eight_points() {
    let p = Poly::from_slice(&[
        [0, 0],
        [4, 0],
        [4, 4],
        [0, 4],
        [1, 1],
        [2, 1],
        [1, 2],
        [2, 2],
        [100, 100],
    ])
    .unwrap();
    assert_eq!(
        vertices(p),
        vec![Vec2::new(0, 0), Vec2::new(4, 0), Vec2::new(4, 4), Vec2::new(0, 4)]
    );
}

#[test]
fn a_polygon_from_an_array_takes_the_count() {
    let z = [0, 0];
    let p = Poly::from_array(3, [[0, 0], [5, 0], [0, 5], [9, 9], z, z, z, z]).unwrap();
    assert_eq!(vertices(p), vec![Vec2::new(0, 0), Vec2::new(5, 0), Vec2::new(0, 5)]);
    assert_eq!(
        Poly::from_array(2, [[0, 0], [5, 0], [0, 5], z, z, z, z, z]).unwrap_err(),
        ShapeError::Degenerate
    );
}

#[test]
fn rotations_by_quarter_turns_are_exact() {
    assert_eq!((Rotation::zero().cos(), Rotation::zero().sin()), (65536, 0));
    assert_eq!(Rotation::degrees(0), Rotation::zero());
    assert_eq!((Rotation::degrees(90).cos(), Rotation::degrees(90).sin()), (0, 65536));
    assert_eq!((Rotation::degrees(180).cos(), Rotation::degrees(180).sin()), (-65536, 0));
    assert_eq!((Rotation::degrees(270).cos(), Rotation::degrees(270).sin()), (0, -65536));
    assert_eq!(Rotation::degrees(-90), Rotation::degrees(270));
    assert_eq!(Rotation::degrees(450), Rotation::degrees(90));
}

#[test]
fn rotations_read_the_table_of_sines() {
    assert_eq!((Rotation::degrees(30).cos(), Rotation::degrees(30).sin()), (56755, 32768));
    assert_eq!((Rotation::degrees(45).cos(), Rotation::degrees(45).sin()), (46340, 46341));
    assert_eq!((Rotation::degrees(60).cos(), Rotation::degrees(60).sin()), (32768, 56755));
    assert_eq!((Rotation::degrees(120).cos(), Rotation::degrees(120).sin()), (-32768, 56755));
    assert_eq!((Rotation::degrees(-30).cos(), Rotation::degrees(-30).sin()), (56755, -32768));
}

#[test]
fn rotations_in_radians_follow_the_degrees() {
    // a quarter turn is 102944 steps of a radian
    assert_eq!((Rotation::radians(102944).cos(), Rotation::radians(102944).sin()), (0, 65536));
    assert_eq!(Rotation::radians(0), Rotation::zero());
    // a sixth of a half turn, 30 degrees, is 34315 steps and a little
    let r = Rotation::radians(34315);
    assert!((r.sin() - 32768).abs() <= 2);
    assert!((r.cos() - 56755).abs() <= 2);
    assert_eq!(Rotation::radians(411775), Rotation::zero());
    assert_eq!(Rotation::radians(-411775 + 102944), Rotation::radians(102944));
}

#[test]
fn a_transformation_keeps_what_it_was_given() {
    let mut t = Transformation::new([5, 4], Rotation::degrees(90)).unwrap();
    assert_eq!(t.position(), Vec2::new(5, 4));
    assert_eq!(t.rotation(), Rotation::degrees(90));
    assert_eq!(t.set_position(Vec2::new(1, 2)), Ok(()));
    assert_eq!(t.position(), Vec2::new(1, 2));
    assert_eq!(t.set_position(Vec2::new(1, 70000)), Err(ShapeError::OutOfRange));
    assert_eq!(t.position(), Vec2::new(1, 2));
    t.set_rotation(Rotation::zero());
    assert_eq!(t.rotation(), Rotation::zero());
}

#[test]
fn a_transformation_turns_then_moves() {
    let t = Transformation::new([5, 4], Rotation::degrees(90)).unwrap();
    assert_eq!(t.place(Vec2::new(1, 0)), Vec2::new(5, 5));
    assert_eq!(t.place(Vec2::new(-1, -3)), Vec2::new(8, 3));
    let i = Transformation::identity();
    assert_eq!(i.place(Vec2::new(-7, 9)), Vec2::new(-7, 9));
}

fn turn(a: Vec2, b: Vec2, c: Vec2) -> i64 {
    (b.x() - a.x()) * (c.y() - a.y()) - (b.y() - a.y()) * (c.x() - a.x())
}

#[test]
fn a_polygon_of_scattered_points_is_strictly_convex_and_holds_them_all() {
    let points = [[3, 1], [-2, 4], [0, 0], [5, 5], [1, -6], [-4, -1], [2, 2], [5, -3]];
    let p = Poly::from_slice(&points).unwrap();
    let v = vertices(p);
    assert_eq!(
        v,
        vec![
            Vec2::new(-4, -1),
            Vec2::new(1, -6),
            Vec2::new(5, -3),
            Vec2::new(5, 5),
            Vec2::new(-2, 4)
        ]
    );
    let n = v.len();
    for i in 0..n {
        for j in 0..n {
            if j != i && j != (i + 1) % n {
                assert!(turn(v[i], v[(i + 1) % n], v[j]) > 0);
            }
        }
        for q in points.iter() {
            assert!(turn(v[i], v[(i + 1) % n], Vec2::new(q[0], q[1])) >= 0);
        }
    }
}

#[test]
fn a_polygon_is_built_from_points_given_twice() {
    let p = Poly::from_slice(&[[0, 0], [0, 0], [4, 0], [4, 0], [0, 3], [0, 3]]).unwrap();
    assert_eq!(vertices(p), vec![Vec2::new(0, 0), Vec2::new(4, 0), Vec2::new(0, 3)]);
}

#[test]
fn three_points_that_span_an_area_always_make_a_polygon() {
    for x in -2..3 {
        for y in -2..3 {
            let r = Poly::from_slice(&[[0, 0], [3, 1], [x, y]]);
            let on_line = 3 * y - x == 0;
            assert_eq!(r.is_err(), on_line);
        }
    }
}
