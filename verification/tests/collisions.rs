use c2::prelude::{AdvancedShape, BasicShape, Shape};
use c2::{Capsule, Circle, Poly, Rotation, Transformation, AABB};

fn circle() -> Circle {
    Circle::new([-1, 0], 2).unwrap()
}

fn aabb() -> AABB {
    AABB::new([-1, -2], [3, 2]).unwrap()
}

fn capsule() -> Capsule {
    Capsule::new([-2, 0], [0, 0], 1).unwrap()
}

fn poly() -> Poly {
    Poly::from_slice(&[[-1, -3], [1, -3], [1, 0], [0, 1], [-1, 0]]).unwrap()
}

#[test]
fn circle_to_circle() {
    let other = Circle::new([1, 0], 2).unwrap();

    assert!(circle().collides_with(&other));
}

#[test]
fn not_circle_to_circle() {
    let other = Circle::new([6, 1], 2).unwrap();

    assert!(!circle().collides_with(&other));
}

#[test]
fn circle_to_aabb() {
    assert!(circle().collides_with(&aabb()));
}

#[test]
fn circle_to_capsule() {
    assert!(circle().collides_with(&capsule()));
}

#[test]
fn circle_to_poly() {
    assert!(circle().collides_with(&poly()));
}

#[test]
fn aabb_to_aabb() {
    let other = AABB::new([-5, -2], [1, 2]).unwrap();

    assert!(aabb().collides_with(&other));
}

#[test]
fn not_aabb_to_aabb() {
    let other = AABB::new([8, 8], [12, 15]).unwrap();

    assert!(!aabb().collides_with(&other));
}

#[test]
fn aabb_to_capsule() {
    assert!(aabb().collides_with(&capsule()));
}

#[test]
fn aabb_to_poly() {
    assert!(aabb().collides_with(&poly()));
}

#[test]
fn capsule_to_capsule() {
    let other = Capsule::new([-4, 0], [2, 0], 1).unwrap();

    assert!(capsule().collides_with(&other));
}

#[test]
fn not_capsule_to_capsule() {
    let other = Capsule::new([-4, 10], [2, 20], 1).unwrap();

    assert!(!capsule().collides_with(&other));
}

#[test]
fn capsule_to_poly() {
    assert!(capsule().collides_with(&poly()));
}

#[test]
fn poly_to_poly() {
    let other = Poly::from_slice(&[[-10, -10], [5, -9], [10, 5], [-4, 9]]).unwrap();
    assert!(poly().collides_with(&other));
}

#[test]
fn not_poly_to_poly() {
    let other = Poly::from_slice(&[[-10, -10], [-17, -10], [-10, -15]]).unwrap();
    assert!(!poly().collides_with(&other));
}

#[test]
fn shape_types_follow_the_kind() {
    assert_eq!(<Circle as Shape>::shape_type(), c2::Type::Circle);
    assert_eq!(<Poly as Shape>::shape_type(), c2::Type::Poly);
}

#[test]
fn gjk() {
    let other = Poly::from_slice(&[[-10, -10], [-17, -10], [-10, -15]]).unwrap();

    let mut iterations = 0;
    let r = poly().gjk(&other).set_iterations(&mut iterations).run();

    assert!(r.distance() != 0);
    assert!(iterations > 0);
}

#[test]
fn circle_reaches_the_corner_of_a_box() {
    let circle = Circle::new([0, 0], 15).unwrap();
    let aabb = AABB::new([10, 5], [20, 30]).unwrap();
    assert!(circle.collides_with(&aabb));
}

#[test]
fn capsule_stays_clear_of_a_polygon() {
    let capsule = Capsule::new([5, 5], [15, 10], 1).unwrap();
    assert!(!capsule.collides_with(&poly()));
}

#[test]
fn circle_reaches_a_turned_and_moved_polygon() {
    let circle = Circle::new([0, 0], 15).unwrap();
    let transformation = Transformation::new([5, 4], Rotation::degrees(90)).unwrap();
    assert!(circle.collides_with(&(poly(), transformation)));
}

#[test]
fn collisions_do_not_depend_on_the_order() {
    let c = circle();
    let b = aabb();
    let k = capsule();
    let p = poly();
    let far = Circle::new([100, 100], 1).unwrap();
    assert_eq!(c.collides_with(&b), b.collides_with(&c));
    assert_eq!(c.collides_with(&k), k.collides_with(&c));
    assert_eq!(c.collides_with(&p), p.collides_with(&c));
    assert_eq!(b.collides_with(&k), k.collides_with(&b));
    assert_eq!(b.collides_with(&p), p.collides_with(&b));
    assert_eq!(k.collides_with(&p), p.collides_with(&k));
    assert_eq!(far.collides_with(&b), b.collides_with(&far));
    assert_eq!(far.collides_with(&k), k.collides_with(&far));
    assert_eq!(far.collides_with(&p), p.collides_with(&far));
    assert!(!far.collides_with(&p));
}

#[test]
fn shapes_that_only_touch_collide() {
    let a = Circle::new([0, 0], 2).unwrap();
    let b = Circle::new([4, 0], 2).unwrap();
    let c = Circle::new([5, 0], 2).unwrap();
    assert!(a.collides_with(&b));
    assert!(!a.collides_with(&c));
    let left = AABB::new([0, 0], [2, 2]).unwrap();
    let right = AABB::new([2, 0], [4, 2]).unwrap();
    assert!(left.collides_with(&right));
}

#[test]
fn a_point_is_a_circle_without_radius() {
    let point = Circle::new([1, -1], 0).unwrap();
    assert!(point.collides_with(&poly()));
    assert!(point.collides_with(&aabb()));
    let outside = Circle::new([2, 2], 0).unwrap();
    assert!(!outside.collides_with(&poly()));
}

#[test]
fn a_box_without_area_collides_only_where_it_is() {
    let wall = AABB::new([0, 0], [0, 4]).unwrap();
    let above = Capsule::new([0, 10], [0, 20], 1).unwrap();
    let across = Capsule::new([-3, 2], [3, 2], 1).unwrap();
    assert!(!wall.collides_with(&above));
    assert!(wall.collides_with(&across));
}

#[test]
fn a_box_collides_as_the_polygon_of_its_corners() {
    let a = AABB::new([0, 0], [4, 3]).unwrap();
    let a_as_polygon = Poly::from_slice(&[[0, 0], [4, 0], [4, 3], [0, 3]]).unwrap();
    for x in -6..8 {
        for y in -5..7 {
            let b = AABB::new([x, y], [x + 2, y + 1]).unwrap();
            let b_as_polygon =
                Poly::from_slice(&[[x, y], [x + 2, y], [x + 2, y + 1], [x, y + 1]]).unwrap();
            let expected = a.collides_with(&b);
            assert_eq!(a.collides_with(&b_as_polygon), expected);
            assert_eq!(a_as_polygon.collides_with(&b), expected);
            assert_eq!(a_as_polygon.collides_with(&b_as_polygon), expected);
        }
    }
}

#[test]
fn a_capsule_without_length_collides_as_a_circle() {
    let circle = Circle::new([0, 0], 3).unwrap();
    for x in -8..9 {
        let as_capsule = Capsule::new([x, 2], [x, 2], 2).unwrap();
        let as_circle = Circle::new([x, 2], 2).unwrap();
        assert_eq!(circle.collides_with(&as_capsule), circle.collides_with(&as_circle));
        assert_eq!(as_capsule.collides_with(&circle), as_circle.collides_with(&circle));
    }
}

#[test]
fn a_circle_collides_with_a_box_as_with_the_polygon_of_its_corners() {
    let b = AABB::new([0, 0], [4, 3]).unwrap();
    let p = Poly::from_slice(&[[0, 0], [4, 0], [4, 3], [0, 3]]).unwrap();
    for x in -5..10 {
        for y in -5..9 {
            for r in 0..4 {
                let c = Circle::new([x, y], r).unwrap();
                assert_eq!(c.collides_with(&b), c.collides_with(&p));
            }
        }
    }
}
