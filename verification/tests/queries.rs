use c2::prelude::{AdvancedShape, BasicShape};
use c2::{Capsule, Circle, GjkCache, Poly, Ray, Rotation, Toi, Transformation, Vec2, AABB};

fn poly() -> Poly {
    Poly::from_slice(&[[-1, -3], [1, -3], [1, 0], [0, 1], [-1, 0]]).unwrap()
}

#[test]
fn two_circles_touch_at_one_point() {
    let a = Circle::new([0, 0], 2).unwrap();
    let b = Circle::new([3, 0], 2).unwrap();
    let m = a.manifold(&b);
    assert_eq!(m.count(), 1);
    assert_eq!(m.depths()[0], 1);
    assert_eq!(m.normal(), Vec2::new(65536, 0));
    assert_eq!(m.contact_points()[0], Vec2::new(1, 0));
    let w = b.manifold(&a);
    assert_eq!(w.count(), 1);
    assert_eq!(w.depths()[0], 1);
    assert_eq!(w.normal(), Vec2::new(-65536, 0));
    assert_eq!(w.contact_points()[0], Vec2::new(2, 0));
}

#[test]
fn circles_on_one_centre_part_along_y() {
    let a = Circle::new([1, 1], 2).unwrap();
    let b = Circle::new([1, 1], 3).unwrap();
    let m = a.manifold(&b);
    assert_eq!(m.count(), 1);
    assert_eq!(m.depths()[0], 5);
    assert_eq!(m.normal(), Vec2::new(0, 65536));
}

#[test]
fn shapes_apart_have_no_contact() {
    let a = Circle::new([0, 0], 2).unwrap();
    let b = Circle::new([10, 0], 2).unwrap();
    assert_eq!(a.manifold(&b).count(), 0);
    let k = Capsule::new([5, 5], [15, 10], 1).unwrap();
    assert_eq!(k.manifold(&poly()).count(), 0);
    assert_eq!(poly().manifold(&k).count(), 0);
}

#[test]
fn a_circle_meets_the_corner_of_a_box() {
    let circle = Circle::new([0, 0], 15).unwrap();
    let aabb = AABB::new([10, 5], [20, 30]).unwrap();
    let m = circle.manifold(&aabb);
    assert_eq!(m.count(), 1);
    assert_eq!(m.depths()[0], 4);
    assert_eq!(m.contact_points()[0], Vec2::new(10, 5));
    assert_eq!(m.normal(), Vec2::new(58617, 29308));
    let w = aabb.manifold(&circle);
    assert_eq!(w.count(), 1);
    assert_eq!(w.depths()[0], 4);
    assert_eq!(w.contact_points()[0], Vec2::new(10, 5));
    assert_eq!(w.normal(), Vec2::new(-58617, -29308));
}

#[test]
fn a_circle_inside_a_box_leaves_by_the_nearest_side() {
    let circle = Circle::new([1, 5], 2).unwrap();
    let aabb = AABB::new([0, 0], [10, 10]).unwrap();
    let m = circle.manifold(&aabb);
    assert_eq!(m.count(), 1);
    assert_eq!(m.depths()[0], 3);
    assert_eq!(m.normal(), Vec2::new(65536, 0));
    assert_eq!(m.contact_points()[0], Vec2::new(0, 5));
}

#[test]
fn two_boxes_part_along_the_smaller_overlap() {
    let a = AABB::new([-1, -2], [3, 2]).unwrap();
    let b = AABB::new([-5, -2], [1, 2]).unwrap();
    let m = a.manifold(&b);
    assert_eq!(m.count(), 1);
    assert_eq!(m.depths()[0], 2);
    assert_eq!(m.normal(), Vec2::new(-65536, 0));
    assert_eq!(m.contact_points()[0], Vec2::new(-1, 0));
    let w = b.manifold(&a);
    assert_eq!(w.count(), 1);
    assert_eq!(w.depths()[0], 2);
    assert_eq!(w.normal(), Vec2::new(65536, 0));
}

#[test]
fn a_circle_meets_the_side_of_a_capsule() {
    let circle = Circle::new([0, 3], 2).unwrap();
    let capsule = Capsule::new([-5, 0], [5, 0], 2).unwrap();
    let m = circle.manifold(&capsule);
    assert_eq!(m.count(), 1);
    assert_eq!(m.depths()[0], 1);
    assert_eq!(m.normal(), Vec2::new(0, -65536));
    assert_eq!(m.contact_points()[0], Vec2::new(0, 2));
    let w = capsule.manifold(&circle);
    assert_eq!(w.normal(), Vec2::new(0, 65536));
}

#[test]
fn two_squares_touch_along_an_edge() {
    let a = Poly::from_slice(&[[0, 0], [4, 0], [4, 4], [0, 4]]).unwrap();
    let b = Poly::from_slice(&[[3, 1], [7, 1], [7, 3], [3, 3]]).unwrap();
    let m = a.manifold(&b);
    assert_eq!(m.count(), 2);
    assert_eq!(m.normal(), Vec2::new(65536, 0));
    assert_eq!(m.depths(), [1, 1]);
    let mut points = m.contact_points().to_vec();
    points.sort_by_key(|p| p.y());
    assert_eq!(points, vec![Vec2::new(3, 1), Vec2::new(3, 3)]);
    let w = b.manifold(&a);
    assert_eq!(w.count(), 2);
    assert_eq!(w.normal(), Vec2::new(-65536, 0));
}

#[test]
fn a_circle_inside_a_polygon_leaves_by_the_nearest_edge() {
    let square = Poly::from_slice(&[[0, 0], [10, 0], [10, 10], [0, 10]]).unwrap();
    let circle = Circle::new([5, 2], 1).unwrap();
    let m = circle.manifold(&square);
    assert_eq!(m.count(), 1);
    assert_eq!(m.depths()[0], 3);
    assert_eq!(m.normal(), Vec2::new(0, 65536));
    assert_eq!(m.contact_points()[0], Vec2::new(5, 0));
}

#[test]
fn a_circle_outside_a_polygon_meets_its_nearest_point() {
    let square = Poly::from_slice(&[[0, 0], [10, 0], [10, 10], [0, 10]]).unwrap();
    let circle = Circle::new([5, -2], 3).unwrap();
    let m = circle.manifold(&square);
    assert_eq!(m.count(), 1);
    assert_eq!(m.depths()[0], 1);
    assert_eq!(m.normal(), Vec2::new(0, 65536));
    assert_eq!(m.contact_points()[0], Vec2::new(5, 0));
}

#[test]
fn a_capsule_on_a_polygon_has_a_contact_where_it_collides() {
    let square = Poly::from_slice(&[[0, 0], [10, 0], [10, 10], [0, 10]]).unwrap();
    let over = Capsule::new([2, 12], [8, 12], 3).unwrap();
    let m = over.manifold(&square);
    assert_eq!(m.count(), 1);
    assert_eq!(m.depths()[0], 1);
    assert_eq!(m.normal(), Vec2::new(0, -65536));
    let through = Capsule::new([5, 8], [5, 20], 1).unwrap();
    let d = through.manifold(&square);
    assert_eq!(d.count(), 1);
    assert_eq!(d.depths()[0], 3);
    assert_eq!(d.normal(), Vec2::new(0, -65536));
    assert_eq!(d.contact_points()[0], Vec2::new(5, 7));
}

#[test]
fn two_capsules_touch_between_their_segments() {
    let a = Capsule::new([0, 0], [10, 0], 2).unwrap();
    let b = Capsule::new([0, 3], [10, 3], 2).unwrap();
    let m = a.manifold(&b);
    assert_eq!(m.count(), 1);
    assert_eq!(m.depths()[0], 1);
    assert_eq!(m.normal(), Vec2::new(0, 65536));
    let x = Capsule::new([5, -5], [5, 5], 1).unwrap();
    let c = a.manifold(&x);
    assert_eq!(c.count(), 1);
    assert!(c.depths()[0] >= 3);
}

#[test]
fn the_manifold_agrees_with_the_collision_test() {
    let shapes_a = [
        Circle::new([0, 0], 3).unwrap(),
        Circle::new([9, 9], 1).unwrap(),
        Circle::new([0, -4], 1).unwrap(),
    ];
    let boxes = [AABB::new([-1, -2], [3, 2]).unwrap(), AABB::new([8, 8], [12, 15]).unwrap()];
    let capsules =
        [Capsule::new([-2, 0], [0, 0], 1).unwrap(), Capsule::new([-4, 10], [2, 20], 1).unwrap()];
    let p = poly();
    for c in shapes_a.iter() {
        for b in boxes.iter() {
            assert_eq!(c.manifold(b).count() > 0, c.collides_with(b));
            assert_eq!(b.manifold(c).count() > 0, b.collides_with(c));
        }
        for k in capsules.iter() {
            assert_eq!(c.manifold(k).count() > 0, c.collides_with(k));
            assert_eq!(k.manifold(c).count() > 0, k.collides_with(c));
        }
        assert_eq!(c.manifold(&p).count() > 0, c.collides_with(&p));
        assert_eq!(p.manifold(c).count() > 0, p.collides_with(c));
    }
    for b in boxes.iter() {
        for k in capsules.iter() {
            assert_eq!(b.manifold(k).count() > 0, b.collides_with(k));
            assert_eq!(k.manifold(b).count() > 0, k.collides_with(b));
        }
        assert_eq!(b.manifold(&p).count() > 0, b.collides_with(&p));
        assert_eq!(p.manifold(b).count() > 0, p.collides_with(b));
    }
    for k in capsules.iter() {
        assert_eq!(k.manifold(&p).count() > 0, k.collides_with(&p));
        assert_eq!(p.manifold(k).count() > 0, p.collides_with(k));
    }
}

#[test]
fn swapping_the_shapes_turns_the_normal_round() {
    let c = Circle::new([0, 0], 3).unwrap();
    let b = AABB::new([-1, -2], [3, 2]).unwrap();
    let k = Capsule::new([-2, 1], [0, 2], 1).unwrap();
    let p = poly();
    let pairs = [
        (c.manifold(&k), k.manifold(&c)),
        (c.manifold(&p), p.manifold(&c)),
        (b.manifold(&k), k.manifold(&b)),
        (b.manifold(&p), p.manifold(&b)),
        (k.manifold(&p), p.manifold(&k)),
    ];
    for (m, w) in pairs.iter() {
        assert_eq!(m.count(), w.count());
        assert!(m.count() > 0);
        assert_eq!(m.normal().x(), -w.normal().x());
        assert_eq!(m.normal().y(), -w.normal().y());
    }
}

#[test]
fn a_ray_enters_a_circle() {
    let ray = Ray::new([-10, 0], [20, 0]).unwrap();
    let circle = Circle::new([0, 0], 2).unwrap();
    let hit = ray.cast(circle).unwrap();
    assert_eq!(hit.time_of_impact(), 8);
    assert_eq!(hit.normal(), Vec2::new(-65536, 0));
    let again = Ray::new([-10, 0], [20, 0]).unwrap();
    assert_eq!(hit.position_of_impact(again), Vec2::new(-2, 0));
}

#[test]
fn a_longer_ray_hits_the_same_and_a_shorter_ray_hits_nothing() {
    let circle = Circle::new([0, 0], 2).unwrap();
    let exact = Ray::new([-10, 0], [8, 0]).unwrap().cast(circle).unwrap();
    let longer = Ray::new([-10, 0], [300, 0]).unwrap().cast(circle).unwrap();
    assert_eq!(exact.time_of_impact(), 8);
    assert_eq!(longer.time_of_impact(), 8);
    assert_eq!(exact.normal(), longer.normal());
    assert!(Ray::new([-10, 0], [7, 0]).unwrap().cast(circle).is_none());
}

#[test]
fn a_ray_misses_what_is_beside_or_behind_it() {
    let circle = Circle::new([0, 0], 2).unwrap();
    assert!(Ray::new([-10, 5], [20, 0]).unwrap().cast(circle).is_none());
    assert!(Ray::new([-10, 0], [-20, 0]).unwrap().cast(circle).is_none());
    assert!(Ray::new([0, 1], [20, 0]).unwrap().cast(circle).is_none());
}

#[test]
fn a_ray_enters_a_box_by_the_side_that_faces_it() {
    let aabb = AABB::new([-1, -2], [3, 2]).unwrap();
    let hit = Ray::new([-10, 0], [20, 0]).unwrap().cast(aabb).unwrap();
    assert_eq!(hit.time_of_impact(), 9);
    assert_eq!(hit.normal(), Vec2::new(-65536, 0));
    let down = Ray::new([0, 10], [0, -20]).unwrap().cast(aabb).unwrap();
    assert_eq!(down.time_of_impact(), 8);
    assert_eq!(down.normal(), Vec2::new(0, 65536));
    assert!(Ray::new([0, 0], [20, 0]).unwrap().cast(aabb).is_none());
    assert!(Ray::new([-10, 5], [20, 0]).unwrap().cast(aabb).is_none());
}

#[test]
fn a_ray_enters_a_polygon_and_a_placed_polygon() {
    let hit = Ray::new([-6, -1], [10, 0]).unwrap().cast(poly()).unwrap();
    assert_eq!(hit.time_of_impact(), 5);
    assert_eq!(hit.normal(), Vec2::new(-65536, 0));
    let moved = Transformation::new([10, 0], Rotation::zero()).unwrap();
    let far = Ray::new([-6, -1], [30, 0]).unwrap().cast((poly(), moved)).unwrap();
    assert_eq!(far.time_of_impact(), 15);
}

#[test]
fn a_ray_enters_a_capsule_by_its_side_or_its_end() {
    let capsule = Capsule::new([-5, 0], [5, 0], 2).unwrap();
    let side = Ray::new([0, 10], [0, -20]).unwrap().cast(capsule).unwrap();
    assert_eq!(side.time_of_impact(), 8);
    assert_eq!(side.normal(), Vec2::new(0, 65536));
    let end = Ray::new([-20, 0], [30, 0]).unwrap().cast(capsule).unwrap();
    assert_eq!(end.time_of_impact(), 13);
    assert_eq!(end.normal(), Vec2::new(-65536, 0));
    assert!(Ray::new([0, 1], [0, -20]).unwrap().cast(capsule).is_none());
}

#[test]
fn a_ray_without_length_points_along_y() {
    let ray = Ray::new([1, 2], [0, 0]).unwrap();
    assert_eq!(ray.t, 0);
    assert_eq!(ray.d, Vec2::new(0, 65536));
    let long = Ray::new([0, 0], [3, 4]).unwrap();
    assert_eq!(long.t, 5);
    assert_eq!(long.d, Vec2::new(39321, 52428));
}

#[test]
fn the_distance_of_two_circles_counts_the_radii_or_not() {
    let a = Circle::new([0, 0], 1).unwrap();
    let b = Circle::new([5, 0], 1).unwrap();
    let with = a.gjk(&b).run();
    assert_eq!(with.distance(), 3);
    assert_eq!(with.closest_points(), (Vec2::new(1, 0), Vec2::new(4, 0)));
    assert!(with.is_exact());
    assert!(with.iterations() >= 1);
    let without = a.gjk(&b).use_radius(false).run();
    assert_eq!(without.distance(), 5);
    assert_eq!(without.closest_points(), (Vec2::new(0, 0), Vec2::new(5, 0)));
}

#[test]
fn the_distance_of_shapes_that_overlap_is_zero() {
    let a = Circle::new([0, 0], 3).unwrap();
    let b = Circle::new([4, 0], 3).unwrap();
    let r = a.gjk(&b).run();
    assert_eq!(r.distance(), 0);
    assert_eq!(r.closest_points(), (Vec2::new(2, 0), Vec2::new(2, 0)));
    let p = poly();
    let inside = Circle::new([0, -1], 0).unwrap();
    let s = p.gjk(&inside).run();
    assert_eq!(s.distance(), 0);
    assert!(s.is_exact());
    assert_eq!(s.closest_points().0, s.closest_points().1);
}

#[test]
fn the_distance_of_two_boxes_lies_between_their_sides() {
    let a = AABB::new([0, 0], [1, 1]).unwrap();
    let b = AABB::new([3, 0], [4, 1]).unwrap();
    let r = a.gjk(&b).run();
    assert_eq!(r.distance(), 2);
    assert!(r.is_exact());
    assert_eq!(r.closest_points().0.x(), 1);
    assert_eq!(r.closest_points().1.x(), 3);
    let c = AABB::new([4, 5], [6, 7]).unwrap();
    let d = a.gjk(&c).run();
    assert_eq!(d.distance(), 5);
    assert_eq!(d.closest_points(), (Vec2::new(1, 1), Vec2::new(4, 5)));
}

#[test]
fn the_distance_does_not_depend_on_the_cache() {
    let p = poly();
    let mut cache = GjkCache::new();
    let mut angle = 0;
    while angle < 360 {
        let other = Poly::from_slice(&[[-10, -10], [-17, -10], [-10, -15]]).unwrap();
        let t = Transformation::new([angle / 10, 0], Rotation::degrees(angle)).unwrap();
        let placed = (other, t);
        let cold = p.gjk(&placed).run();
        let warm = p.gjk(&placed).set_cache(&mut cache).run();
        assert!(cold.is_exact());
        assert!(warm.is_exact());
        assert_eq!(cold.distance(), warm.distance());
        assert_eq!(cold.closest_points(), warm.closest_points());
        assert!(warm.iterations() <= cold.iterations() + 1);
        angle += 5;
    }
    assert!(cache.count >= 1);
}

#[test]
fn a_cache_that_does_not_fit_is_not_used() {
    let a = Circle::new([0, 0], 1).unwrap();
    let b = Circle::new([5, 0], 1).unwrap();
    let mut cache = GjkCache { count: 3, ia: [7, 7, 7], ib: [9, 9, 9] };
    let r = a.gjk(&b).set_cache(&mut cache).run();
    assert_eq!(r.distance(), 3);
    assert_eq!(cache.count, 1);
    assert_eq!((cache.ia[0], cache.ib[0]), (0, 0));
}

#[test]
fn two_circles_that_close_in_touch_when_the_gap_is_used_up() {
    let a = Circle::new([0, 0], 100).unwrap();
    let b = Circle::new([500, 0], 100).unwrap();
    let mut iterations = 0;
    let t = a
        .time_of_impact(&b)
        .set_velocities(Vec2::new(1000, 0), Vec2::new(0, 0))
        .set_iterations(&mut iterations)
        .run();
    // a gap of 300 at a speed of 1000 for the step is used up after 0.3 of it
    match t {
        Toi::Impact(time) => assert!((time - 19661).abs() <= 131),
        Toi::NoImpact => panic!("the circles meet within the step"),
    }
    assert!(iterations >= 1 && iterations <= 20);
    let both = a
        .time_of_impact(&b)
        .set_velocities(Vec2::new(500, 0), Vec2::new(-500, 0))
        .run();
    match both {
        Toi::Impact(time) => assert!((time - 19661).abs() <= 131),
        Toi::NoImpact => panic!("the circles meet within the step"),
    }
}

#[test]
fn circles_that_are_too_slow_or_part_do_not_touch() {
    let a = Circle::new([0, 0], 100).unwrap();
    let b = Circle::new([500, 0], 100).unwrap();
    let slow = a.time_of_impact(&b).set_velocities(Vec2::new(100, 0), Vec2::new(0, 0)).run();
    assert_eq!(slow, Toi::NoImpact);
    let apart = a.time_of_impact(&b).set_velocities(Vec2::new(-1000, 0), Vec2::new(0, 0)).run();
    assert_eq!(apart, Toi::NoImpact);
    let still = a.time_of_impact(&b).run();
    assert_eq!(still, Toi::NoImpact);
}

#[test]
fn shapes_that_touch_at_the_start_touch_at_time_zero() {
    let a = Circle::new([0, 0], 100).unwrap();
    let b = Circle::new([150, 0], 100).unwrap();
    let t = a.time_of_impact(&b).set_velocities(Vec2::new(10, 0), Vec2::new(0, 0)).run();
    assert_eq!(t, Toi::Impact(0));
    let cores = a
        .time_of_impact(&b)
        .use_radius(false)
        .set_velocities(Vec2::new(150, 0), Vec2::new(0, 0))
        .run();
    match cores {
        Toi::Impact(time) => assert!(time > 65000),
        Toi::NoImpact => panic!("the centres meet at the end of the step"),
    }
}

#[test]
fn the_depths_of_a_manifold_are_not_negative() {
    let p = poly();
    for x in -4..5 {
        for y in -5..4 {
            let c = Circle::new([x, y], 1).unwrap();
            let k = Capsule::new([x, y], [x + 2, y + 1], 1).unwrap();
            let b = AABB::new([x, y], [x + 1, y + 2]).unwrap();
            for m in [c.manifold(&p), k.manifold(&p), b.manifold(&p), p.manifold(&b)].iter() {
                for i in 0..(m.count() as usize) {
                    assert!(m.depths()[i] >= 0);
                }
                assert!(m.normal().x().abs() <= 65536 && m.normal().y().abs() <= 65536);
            }
        }
    }
}

#[test]
fn polygons_that_share_a_point_collide() {
    let p = poly();
    for x in -6..7 {
        for y in -7..6 {
            let other = Poly::from_slice(&[[x, y], [x + 3, y], [x + 2, y + 3]]).unwrap();
            let r = p.gjk(&other).run();
            assert!(r.is_exact());
            if r.found.hit {
                assert!(p.collides_with(&other));
                assert_eq!(r.distance(), 0);
            } else {
                assert!(!p.collides_with(&other));
            }
        }
    }
}

#[test]
fn the_engine_stops_within_its_bound() {
    let a = Poly::from_slice(&[[0, 0], [40, 1], [79, 3], [117, 6], [154, 10], [190, 15], [225, 21], [259, 28]])
        .unwrap();
    let b = Poly::from_slice(&[
        [1000, 500],
        [1040, 501],
        [1079, 503],
        [1117, 506],
        [1154, 510],
        [1190, 515],
        [1225, 521],
        [1259, 528],
    ])
    .unwrap();
    let mut iterations = 0;
    let r = a.gjk(&b).set_iterations(&mut iterations).run();
    assert!(iterations >= 1 && iterations <= 20);
    assert_eq!(iterations, r.iterations());
    assert!(r.distance() > 0);
}
