use c2::prelude::{AdvancedShape, BasicShape};
use c2::{Capsule, Circle, Poly, Ray, Rotation, Toi, Transformation, Vec2, AABB};

struct Dice(u64);

impl Dice {
    fn roll(&mut self, lo: i64, hi: i64) -> i64 {
        self.0 = self.0.wrapping_mul(6364136223846793005).wrapping_add(1442695040888963407);
        lo + ((self.0 >> 33) % ((hi - lo + 1) as u64)) as i64
    }

    fn point(&mut self, reach: i64) -> [i64; 2] {
        [self.roll(-reach, reach), self.roll(-reach, reach)]
    }

    fn polygon(&mut self, reach: i64) -> Poly {
        loop {
            let mut points = Vec::new();
            let n = self.roll(3, 8);
            for _ in 0..n {
                points.push(self.point(reach));
            }
            if let Ok(p) = Poly::from_slice(&points) {
                return p;
            }
        }
    }
}

type P = (f64, f64);

fn pt(v: Vec2) -> P {
    (v.x() as f64, v.y() as f64)
}

fn cross(o: P, a: P, b: P) -> f64 {
    (a.0 - o.0) * (b.1 - o.1) - (a.1 - o.1) * (b.0 - o.0)
}

fn point_to_segment(p: P, a: P, b: P) -> f64 {
    let e = (b.0 - a.0, b.1 - a.1);
    let w = (p.0 - a.0, p.1 - a.1);
    let ee = e.0 * e.0 + e.1 * e.1;
    let t = if ee == 0.0 { 0.0 } else { ((w.0 * e.0 + w.1 * e.1) / ee).clamp(0.0, 1.0) };
    let f = (a.0 + e.0 * t, a.1 + e.1 * t);
    ((p.0 - f.0).powi(2) + (p.1 - f.1).powi(2)).sqrt()
}

fn segments_cross(a: P, b: P, c: P, d: P) -> bool {
    let o1 = cross(a, b, c);
    let o2 = cross(a, b, d);
    let o3 = cross(c, d, a);
    let o4 = cross(c, d, b);
    o1 * o2 < 0.0 && o3 * o4 < 0.0
}

fn segment_to_segment(a: P, b: P, c: P, d: P) -> f64 {
    if segments_cross(a, b, c, d) {
        return 0.0;
    }
    point_to_segment(a, c, d)
        .min(point_to_segment(b, c, d))
        .min(point_to_segment(c, a, b))
        .min(point_to_segment(d, a, b))
}

fn outline(p: Poly) -> Vec<P> {
    (0..p.count()).map(|i| pt(p.get_vert(i))).collect()
}

fn corners(b: AABB) -> Vec<P> {
    let lo = pt(b.min());
    let hi = pt(b.max());
    vec![lo, (hi.0, lo.1), hi, (lo.0, hi.1)]
}

fn holds(v: &[P], p: P) -> bool {
    (0..v.len()).all(|i| cross(v[i], v[(i + 1) % v.len()], p) >= 0.0)
}

fn segment_to_outline(a: P, b: P, v: &[P]) -> f64 {
    if holds(v, a) || holds(v, b) {
        return 0.0;
    }
    (0..v.len())
        .map(|i| segment_to_segment(a, b, v[i], v[(i + 1) % v.len()]))
        .fold(f64::INFINITY, f64::min)
}

fn outline_to_outline(v: &[P], w: &[P]) -> f64 {
    let mut best = f64::INFINITY;
    for i in 0..v.len() {
        best = best.min(segment_to_outline(v[i], v[(i + 1) % v.len()], w));
    }
    for i in 0..w.len() {
        best = best.min(segment_to_outline(w[i], w[(i + 1) % w.len()], v));
    }
    best
}

fn clear(distance: f64, radii: f64) -> bool {
    (distance - radii).abs() > 1e-7
}

#[test]
fn sampled_circles_and_capsules_collide_where_they_are_near_enough() {
    let mut dice = Dice(1);
    for _ in 0..3000 {
        let c = dice.point(12);
        let r = dice.roll(0, 5);
        let a = dice.point(12);
        let b = dice.point(12);
        let rk = dice.roll(0, 4);
        let circle = Circle::new(c, r).unwrap();
        let capsule = Capsule::new(a, b, rk).unwrap();
        let cf = (c[0] as f64, c[1] as f64);
        let af = (a[0] as f64, a[1] as f64);
        let bf = (b[0] as f64, b[1] as f64);
        let d = point_to_segment(cf, af, bf);
        if clear(d, (r + rk) as f64) {
            assert_eq!(circle.collides_with(&capsule), d < (r + rk) as f64);
            assert_eq!(circle.manifold(&capsule).count() > 0, d < (r + rk) as f64);
        }
        let a2 = dice.point(12);
        let b2 = dice.point(12);
        let other = Capsule::new(a2, b2, r).unwrap();
        let a2f = (a2[0] as f64, a2[1] as f64);
        let b2f = (b2[0] as f64, b2[1] as f64);
        let dd = segment_to_segment(af, bf, a2f, b2f);
        if clear(dd, (r + rk) as f64) {
            assert_eq!(capsule.collides_with(&other), dd < (r + rk) as f64);
            assert_eq!(capsule.manifold(&other).count() > 0, dd < (r + rk) as f64);
        }
    }
}

#[test]
fn sampled_shapes_collide_with_polygons_where_they_are_near_enough() {
    let mut dice = Dice(2);
    for _ in 0..1500 {
        let poly = dice.polygon(10);
        let v = outline(poly);
        let c = dice.point(14);
        let r = dice.roll(0, 4);
        let circle = Circle::new(c, r).unwrap();
        let cf = (c[0] as f64, c[1] as f64);
        let d = segment_to_outline(cf, cf, &v);
        if clear(d, r as f64) {
            assert_eq!(circle.collides_with(&poly), d < r as f64);
            assert_eq!(poly.manifold(&circle).count() > 0, d < r as f64);
        }
        let a = dice.point(14);
        let b = dice.point(14);
        let capsule = Capsule::new(a, b, r).unwrap();
        let af = (a[0] as f64, a[1] as f64);
        let bf = (b[0] as f64, b[1] as f64);
        let dk = segment_to_outline(af, bf, &v);
        if clear(dk, r as f64) {
            assert_eq!(capsule.collides_with(&poly), dk < r as f64);
            assert_eq!(capsule.manifold(&poly).count() > 0, dk < r as f64);
        }
        let lo = dice.point(12);
        let aabb = AABB::new(lo, [lo[0] + dice.roll(1, 6), lo[1] + dice.roll(1, 6)]).unwrap();
        let w = corners(aabb);
        let db = outline_to_outline(&w, &v);
        if clear(db, 0.0) {
            assert_eq!(aabb.collides_with(&poly), db == 0.0);
            assert_eq!(poly.collides_with(&aabb), db == 0.0);
        }
        let dc = segment_to_outline(af, bf, &w);
        if clear(dc, r as f64) {
            assert_eq!(aabb.collides_with(&capsule), dc < r as f64);
        }
        let other = dice.polygon(10);
        let dp = outline_to_outline(&v, &outline(other));
        if clear(dp, 0.0) {
            assert_eq!(poly.collides_with(&other), dp == 0.0);
            assert_eq!(poly.manifold(&other).count() > 0, dp == 0.0);
        }
    }
}

#[test]
fn sampled_distances_are_the_distances_of_the_shapes_rounded_down() {
    let mut dice = Dice(3);
    for _ in 0..1500 {
        let poly = dice.polygon(10);
        let other = dice.polygon(10);
        let a = dice.point(14);
        let b = dice.point(14);
        let r = dice.roll(0, 3);
        let capsule = Capsule::new(a, b, r).unwrap();
        let af = (a[0] as f64, a[1] as f64);
        let bf = (b[0] as f64, b[1] as f64);
        let pairs = [
            (poly.gjk(&other).run(), outline_to_outline(&outline(poly), &outline(other)), 0),
            (poly.gjk(&capsule).run(), segment_to_outline(af, bf, &outline(poly)), r),
            (
                capsule.gjk(&other).use_radius(false).run(),
                segment_to_outline(af, bf, &outline(other)),
                0,
            ),
        ];
        for (found, distance, radii) in pairs.iter() {
            assert!(found.is_exact());
            let expected = (distance - *radii as f64).max(0.0);
            if (expected - expected.round()).abs() > 1e-7 {
                assert_eq!(found.distance(), expected.floor() as i64);
            }
            assert_eq!(found.found.hit, *distance == 0.0);
        }
    }
}

#[test]
fn sampled_rays_stop_where_they_enter_a_circle_or_a_polygon() {
    let mut dice = Dice(4);
    for _ in 0..3000 {
        let origin = dice.point(40);
        let vector = dice.point(80);
        if vector == [0, 0] {
            continue;
        }
        let c = dice.point(20);
        let r = dice.roll(1, 9);
        let ray = Ray::new(origin, vector).unwrap();
        let length = ((vector[0] * vector[0] + vector[1] * vector[1]) as f64).sqrt();
        let d = (vector[0] as f64 / length, vector[1] as f64 / length);
        let m = ((origin[0] - c[0]) as f64, (origin[1] - c[1]) as f64);
        let b = m.0 * d.0 + m.1 * d.1;
        let k = m.0 * m.0 + m.1 * m.1 - (r * r) as f64;
        let disc = b * b - k;
        let hit = ray.cast(Circle::new(c, r).unwrap());
        if disc > 1.0 {
            let t = -b - disc.sqrt();
            if t > 1.5 && t < length.floor() - 1.5 {
                let found = hit.expect("the ray reaches the circle");
                assert!((found.time_of_impact() as f64 - t).abs() <= 1.5);
                let n = found.normal();
                let at = (
                    origin[0] as f64 + d.0 * t - c[0] as f64,
                    origin[1] as f64 + d.1 * t - c[1] as f64,
                );
                assert!((n.x() as f64 / 65536.0 - at.0 / r as f64).abs() < 0.05);
                assert!((n.y() as f64 / 65536.0 - at.1 / r as f64).abs() < 0.05);
            } else if t < -1.5 || t > length + 1.5 {
                assert!(hit.is_none());
            }
        } else if disc < -1.0 {
            assert!(hit.is_none());
        }
        let poly = dice.polygon(15);
        let v = outline(poly);
        let of = (origin[0] as f64, origin[1] as f64);
        let end = (of.0 + vector[0] as f64, of.1 + vector[1] as f64);
        let reached = segment_to_outline(of, end, &v) == 0.0;
        let inside = holds(&v, of);
        let found = Ray::new(origin, vector).unwrap().cast(poly);
        if inside {
            assert!(found.is_none());
        } else if !reached {
            if segment_to_outline(of, end, &v) > 1.5 {
                assert!(found.is_none());
            }
        }
        if let Some(h) = found {
            let t = h.time_of_impact() as f64;
            let at = (of.0 + d.0 * t, of.1 + d.1 * t);
            assert!(segment_to_outline(at, at, &v) <= 1.5);
            assert!(h.normal().x() as f64 * d.0 + h.normal().y() as f64 * d.1 < 0.0);
        }
    }
}

fn push(n: Vec2, depth: i64) -> [i64; 2] {
    let by = (depth + 2) as f64;
    [
        (n.x() as f64 / 65536.0 * by).round() as i64 + n.x().signum(),
        (n.y() as f64 / 65536.0 * by).round() as i64 + n.y().signum(),
    ]
}

#[test]
fn sampled_manifolds_tell_how_to_part_the_shapes() {
    let mut dice = Dice(5);
    let mut seen = 0;
    for _ in 0..1500 {
        let poly = dice.polygon(10);
        let other = dice.polygon(10);
        let c = dice.point(12);
        let r = dice.roll(1, 4);
        let circle = Circle::new(c, r).unwrap();
        let a = dice.point(12);
        let b = dice.point(12);
        let capsule = Capsule::new(a, b, r).unwrap();

        let m = circle.manifold(&poly);
        if m.count() > 0 {
            seen += 1;
            let by = push(m.normal(), m.depths()[0]);
            let moved = (poly, Transformation::new(by, Rotation::zero()).unwrap());
            assert!(!circle.collides_with(&moved));
        }
        let m = capsule.manifold(&poly);
        if m.count() > 0 {
            seen += 1;
            let by = push(m.normal(), m.depths()[0]);
            let moved = (poly, Transformation::new(by, Rotation::zero()).unwrap());
            assert!(
                !capsule.collides_with(&moved),
                "capsule {:?} {:?} r {} poly {:?} normal {:?} depth {} by {:?}",
                a,
                b,
                r,
                outline(poly),
                m.normal(),
                m.depths()[0],
                by
            );
        }
        let m = other.manifold(&poly);
        if m.count() > 0 {
            seen += 1;
            let depth = m.depths()[0].max(m.depths()[1]);
            let by = push(m.normal(), depth);
            let moved = (poly, Transformation::new(by, Rotation::zero()).unwrap());
            assert!(!other.collides_with(&moved));
        }
        let far = Circle::new(dice.point(12), dice.roll(1, 4)).unwrap();
        let m = circle.manifold(&far);
        if m.count() > 0 {
            seen += 1;
            let by = push(m.normal(), m.depths()[0]);
            let again = Circle::new([far.p.x() + by[0], far.p.y() + by[1]], far.r).unwrap();
            assert!(!circle.collides_with(&again));
        }
    }
    assert!(seen > 500);
}

fn parted(m: c2::Manifold) -> [i64; 2] {
    let depth = if m.count() == 2 { m.depths()[0].max(m.depths()[1]) } else { m.depths()[0] };
    push(m.normal(), depth)
}

#[test]
fn sampled_manifolds_of_round_shapes_and_boxes_part_them() {
    let mut dice = Dice(6);
    let mut seen = 0;
    for _ in 0..3000 {
        let c = dice.point(10);
        let r = dice.roll(1, 4);
        let circle = Circle::new(c, r).unwrap();
        let a = dice.point(10);
        let b = dice.point(10);
        let capsule = Capsule::new(a, b, dice.roll(1, 3)).unwrap();
        let lo = dice.point(8);
        let aabb = AABB::new(lo, [lo[0] + dice.roll(1, 6), lo[1] + dice.roll(1, 6)]).unwrap();
        let a2 = dice.point(10);
        let b2 = dice.point(10);
        let other = Capsule::new(a2, b2, dice.roll(1, 3)).unwrap();
        let lo2 = dice.point(8);
        let box2 = AABB::new(lo2, [lo2[0] + dice.roll(1, 6), lo2[1] + dice.roll(1, 6)]).unwrap();
        let poly = dice.polygon(8);

        let m = circle.manifold(&capsule);
        if m.count() > 0 {
            seen += 1;
            let by = parted(m);
            let moved = Capsule::new(
                [capsule.a.x() + by[0], capsule.a.y() + by[1]],
                [capsule.b.x() + by[0], capsule.b.y() + by[1]],
                capsule.r,
            )
            .unwrap();
            assert!(!circle.collides_with(&moved), "circle {:?} capsule {:?}", circle, capsule);
        }
        let m = circle.manifold(&aabb);
        if m.count() > 0 {
            seen += 1;
            let by = parted(m);
            let moved = AABB::new(
                [aabb.min().x() + by[0], aabb.min().y() + by[1]],
                [aabb.max().x() + by[0], aabb.max().y() + by[1]],
            )
            .unwrap();
            assert!(!circle.collides_with(&moved), "circle {:?} box {:?}", circle, aabb);
        }
        let m = aabb.manifold(&box2);
        if m.count() > 0 {
            seen += 1;
            let by = parted(m);
            let moved = AABB::new(
                [box2.min().x() + by[0], box2.min().y() + by[1]],
                [box2.max().x() + by[0], box2.max().y() + by[1]],
            )
            .unwrap();
            assert!(!aabb.collides_with(&moved), "box {:?} box {:?}", aabb, box2);
        }
        let m = aabb.manifold(&poly);
        if m.count() > 0 {
            seen += 1;
            let by = parted(m);
            let moved = (poly, Transformation::new(by, Rotation::zero()).unwrap());
            assert!(!aabb.collides_with(&moved), "box {:?} poly {:?}", aabb, outline(poly));
        }
        let m = aabb.manifold(&capsule);
        if m.count() > 0 {
            seen += 1;
            let by = parted(m);
            let moved = Capsule::new(
                [capsule.a.x() + by[0], capsule.a.y() + by[1]],
                [capsule.b.x() + by[0], capsule.b.y() + by[1]],
                capsule.r,
            )
            .unwrap();
            assert!(!aabb.collides_with(&moved), "box {:?} capsule {:?}", aabb, capsule);
        }
        let m = capsule.manifold(&other);
        if m.count() > 0 {
            seen += 1;
            let by = parted(m);
            let moved = Capsule::new(
                [other.a.x() + by[0], other.a.y() + by[1]],
                [other.b.x() + by[0], other.b.y() + by[1]],
                other.r,
            )
            .unwrap();
            assert!(
                !capsule.collides_with(&moved),
                "capsule {:?} capsule {:?} normal {:?} depth {}",
                capsule,
                other,
                m.normal(),
                m.depths()[0]
            );
        }
    }
    assert!(seen > 1000);
}

#[test]
fn rotations_are_near_the_cosine_and_the_sine() {
    for degrees in -720..721_i64 {
        let r = Rotation::degrees(degrees);
        let angle = (degrees as f64).to_radians();
        assert!((r.cos() as f64 - angle.cos() * 65536.0).abs() <= 1.5, "cos of {degrees}");
        assert!((r.sin() as f64 - angle.sin() * 65536.0).abs() <= 1.5, "sin of {degrees}");
        let norm = r.cos() * r.cos() + r.sin() * r.sin() - 65536 * 65536;
        assert!(norm.abs() <= 2 * 65536 + 1);
    }
    for step in -2000..2001_i64 {
        let angle = step as f64 * 0.005;
        let r = Rotation::radians((angle * 65536.0).round() as i64);
        assert!((r.cos() as f64 / 65536.0 - angle.cos()).abs() <= 1e-4, "cos of {angle}");
        assert!((r.sin() as f64 / 65536.0 - angle.sin()).abs() <= 1e-4, "sin of {angle}");
    }
}

#[test]
fn sampled_circles_meet_a_turned_polygon_where_they_are_near_enough() {
    let mut dice = Dice(7);
    for _ in 0..2000 {
        let poly = dice.polygon(200);
        let degrees = dice.roll(-360, 360);
        let position = dice.point(300);
        let t = Transformation::new(position, Rotation::degrees(degrees)).unwrap();
        let angle = (degrees as f64).to_radians();
        let turned: Vec<P> = outline(poly)
            .iter()
            .map(|v| {
                (
                    v.0 * angle.cos() - v.1 * angle.sin() + position[0] as f64,
                    v.0 * angle.sin() + v.1 * angle.cos() + position[1] as f64,
                )
            })
            .collect();
        let c = dice.point(500);
        let r = dice.roll(0, 150);
        let circle = Circle::new(c, r).unwrap();
        let cf = (c[0] as f64, c[1] as f64);
        let d = segment_to_outline(cf, cf, &turned);
        if (d - r as f64).abs() > 3.0 {
            assert_eq!(circle.collides_with(&(poly, t)), d < r as f64);
            assert_eq!((poly, t).collides_with(&circle), d < r as f64);
            let found = circle.gjk(&(poly, t)).run();
            assert!(found.is_exact());
            let expected = (d - r as f64).max(0.0);
            assert!((found.distance() as f64 - expected).abs() <= 3.0);
        }
    }
}

#[test]
fn sampled_closest_points_are_as_far_apart_as_the_shapes() {
    let mut dice = Dice(8);
    for _ in 0..1500 {
        let poly = dice.polygon(60);
        let other = dice.polygon(60);
        let by = dice.point(200);
        let moved = (other, Transformation::new(by, Rotation::zero()).unwrap());
        let found = poly.gjk(&moved).run();
        let (pa, pb) = found.closest_points();
        let apart = (((pa.x() - pb.x()).pow(2) + (pa.y() - pb.y()).pow(2)) as f64).sqrt();
        assert!((apart - found.distance() as f64).abs() <= 2.5);
        let v = outline(poly);
        let w: Vec<P> =
            outline(other).iter().map(|p| (p.0 + by[0] as f64, p.1 + by[1] as f64)).collect();
        assert!(segment_to_outline(pt(pa), pt(pa), &v) <= 1.5);
        assert!(segment_to_outline(pt(pb), pt(pb), &w) <= 1.5);
    }
}

#[test]
fn sampled_circles_in_motion_touch_when_their_paths_say() {
    let mut dice = Dice(9);
    let mut impacts = 0;
    let mut misses = 0;
    for _ in 0..3000 {
        let pa = dice.point(3000);
        let pb = dice.point(3000);
        let ra = dice.roll(50, 400);
        let rb = dice.roll(50, 400);
        let va = dice.point(4000);
        let vb = dice.point(4000);
        let a = Circle::new(pa, ra).unwrap();
        let b = Circle::new(pb, rb).unwrap();
        let found = a
            .time_of_impact(&b)
            .set_velocities(Vec2::new(va[0], va[1]), Vec2::new(vb[0], vb[1]))
            .run();
        let dp = ((pb[0] - pa[0]) as f64, (pb[1] - pa[1]) as f64);
        let dv = ((vb[0] - va[0]) as f64, (vb[1] - va[1]) as f64);
        let radii = (ra + rb) as f64;
        let start = (dp.0 * dp.0 + dp.1 * dp.1).sqrt();
        if start < radii - 2.0 {
            assert_eq!(found, Toi::Impact(0));
            continue;
        }
        if start < radii + 2.0 {
            continue;
        }
        let qa = dv.0 * dv.0 + dv.1 * dv.1;
        let qb = dp.0 * dv.0 + dp.1 * dv.1;
        let qc = dp.0 * dp.0 + dp.1 * dp.1 - radii * radii;
        let at_nearest = if qa == 0.0 { 0.0 } else { (-qb / qa).clamp(0.0, 1.0) };
        let nearest =
            ((dp.0 + dv.0 * at_nearest).powi(2) + (dp.1 + dv.1 * at_nearest).powi(2)).sqrt();
        if nearest > radii + 3.0 {
            assert_eq!(found, Toi::NoImpact);
            misses += 1;
        } else if nearest < radii * 0.5 && qb < 0.0 {
            let t = (-qb - (qb * qb - qa * qc).sqrt()) / qa;
            if t < 0.98 {
                match found {
                    Toi::Impact(steps) => {
                        assert!((steps as f64 / 65536.0 - t).abs() <= 0.01);
                        impacts += 1;
                    }
                    Toi::NoImpact => panic!("the circles meet after {t} of the step"),
                }
            }
        }
    }
    assert!(impacts > 50 && misses > 500);
}
