use raytracer::image::sphere::{
    background, cast_ray, checker, epsilon, floor_step, light, light_terms, ray_sphere_intersect,
    reflect, refract, scene_intersect, shade, shadowed, sphere, sphere_step, Nearest, Sphere, LIGHTS,
    MAX_DEPTH, SPHERES,
};
use raytracer::util::fixed::Fixed;
use raytracer::util::material::{floor, glass, ivory, mirror, red_rubber};
use raytracer::util::vec3::{PixelOperations, Vec3};

fn fx(v: f64) -> Fixed {
    Fixed { raw: (v * 4294967296.0).round() as i64 }
}

fn as_f64(f: Fixed) -> f64 {
    f.raw as f64 / 4294967296.0
}

fn v3(x: f64, y: f64, z: f64) -> Vec3 {
    Vec3 { x: fx(x), y: fx(y), z: fx(z) }
}

fn close(a: Vec3, x: f64, y: f64, z: f64, tolerance: f64) -> bool {
    (as_f64(a.x) - x).abs() <= tolerance
        && (as_f64(a.y) - y).abs() <= tolerance
        && (as_f64(a.z) - z).abs() <= tolerance
}

fn toward(x: f64, y: f64, z: f64) -> Vec3 {
    v3(x, y, z).normalized()
}

#[test]
fn scene_constants() {
    assert_eq!(SPHERES, 4);
    assert_eq!(LIGHTS, 3);
    assert_eq!(MAX_DEPTH, 4);
    assert_eq!(sphere(0).center, v3(-3.0, 0.0, -16.0));
    assert_eq!(sphere(1).center, v3(-1.0, -1.5, -12.0));
    assert_eq!(sphere(2).center, v3(1.5, -0.5, -18.0));
    assert_eq!(sphere(3).center, v3(7.0, 5.0, -18.0));
    assert_eq!(sphere(0).radius, Fixed::from_int(2));
    assert_eq!(sphere(1).radius, Fixed::from_int(2));
    assert_eq!(sphere(2).radius, Fixed::from_int(3));
    assert_eq!(sphere(3).radius, Fixed::from_int(4));
    assert_eq!(sphere(0).material.specular_exponent, 50);
    assert_eq!(sphere(1).material.specular_exponent, 125);
    assert_eq!(sphere(2).material.specular_exponent, 10);
    assert_eq!(sphere(3).material.specular_exponent, 1425);
    assert_eq!(light(0), v3(-20.0, 20.0, 20.0));
    assert_eq!(light(1), v3(30.0, 50.0, -25.0));
    assert_eq!(light(2), v3(30.0, 20.0, 30.0));
    assert_eq!(epsilon().raw, 4294967);
    assert_eq!(
        background(),
        Vec3 { x: Fixed { raw: 858993459 }, y: Fixed { raw: 3006477107 }, z: Fixed { raw: 3435973836 } }
    );
}

#[test]
fn material_catalogue() {
    let tenth = |n: i32| Fixed::from_ratio(n, 10);
    let m = ivory();
    assert_eq!(m.refractive_index, Fixed::one());
    assert_eq!(m.albedo, [tenth(9), tenth(5), tenth(1), Fixed::zero()]);
    assert_eq!(m.diffuse_color, Vec3 { x: tenth(4), y: tenth(4), z: tenth(3) });
    assert_eq!(m.specular_exponent, 50);
    let m = glass();
    assert_eq!(m.refractive_index, Fixed::from_ratio(3, 2));
    assert_eq!(m.albedo, [Fixed::zero(), tenth(9), tenth(1), tenth(8)]);
    assert_eq!(m.diffuse_color, Vec3 { x: tenth(6), y: tenth(7), z: tenth(8) });
    assert_eq!(m.specular_exponent, 125);
    let m = red_rubber();
    assert_eq!(m.refractive_index, Fixed::one());
    assert_eq!(m.albedo, [tenth(14), tenth(3), Fixed::zero(), Fixed::zero()]);
    assert_eq!(m.diffuse_color, Vec3 { x: tenth(3), y: tenth(1), z: tenth(1) });
    assert_eq!(m.specular_exponent, 10);
    let m = mirror();
    assert_eq!(m.refractive_index, Fixed::one());
    assert_eq!(m.albedo, [Fixed::zero(), Fixed::from_int(16), tenth(8), Fixed::zero()]);
    assert_eq!(m.diffuse_color, Vec3::from_ints(1, 1, 1));
    assert_eq!(m.specular_exponent, 1425);
    let m = floor(Vec3::from_ints(1, 2, 3));
    assert_eq!(m.refractive_index, Fixed::one());
    assert_eq!(m.albedo, [Fixed::from_int(2), Fixed::zero(), Fixed::zero(), Fixed::zero()]);
    assert_eq!(m.diffuse_color, Vec3::from_ints(1, 2, 3));
    assert_eq!(m.specular_exponent, 0);
}

#[test]
fn reflect_mirrors_at_the_normal() {
    let d = Vec3::from_ints(1, -1, 0);
    let n = Vec3::from_ints(0, 1, 0);
    assert_eq!(reflect(&d, &n), Vec3::from_ints(1, 1, 0));
    let d = Vec3::from_ints(3, -4, 12);
    assert_eq!(reflect(&d, &Vec3::from_ints(0, 0, 1)), Vec3::from_ints(3, -4, -12));
}

#[test]
fn reflect_keeps_length_and_turns_the_normal_part() {
    let d = toward(0.3, -0.8, -0.52);
    let n = toward(-0.2, 0.9, 0.4);
    let r = reflect(&d, &n);
    assert!((r.square().raw - d.square().raw).abs() <= 512);
    assert!(((r * n).raw + (d * n).raw).abs() <= 128);
    // At an axis the reflection is exact.
    let up = Vec3::from_ints(0, 1, 0);
    let r = reflect(&d, &up);
    assert_eq!(r, Vec3 { x: d.x, y: -d.y, z: d.z });
    assert_eq!(r.square(), d.square());
    assert_eq!(r * up, -(d * up));
}

#[test]
fn refract_with_equal_indices_is_the_identity() {
    let d = Vec3::from_ints(0, 0, -1);
    let n = Vec3::from_ints(0, 0, 1);
    assert_eq!(refract(&d, &n, Fixed::one(), Fixed::one()), d);
    let d = toward(0.3, -0.8, -0.52);
    let n = toward(-0.2, 0.9, 0.4);
    let eta = Fixed::from_ratio(3, 2);
    let near = |r: Vec3| {
        (r.x.raw - d.x.raw).abs() <= 1 << 17
            && (r.y.raw - d.y.raw).abs() <= 1 << 17
            && (r.z.raw - d.z.raw).abs() <= 1 << 17
    };
    assert!(near(refract(&d, &n, eta, eta)));
    // The same from inside, where the normal is turned round first.
    assert!(near(refract(&d, &(-n), eta, eta)));
}

#[test]
fn refract_bends_toward_the_normal_in_the_denser_medium() {
    // 45 degrees of incidence from air into glass of index 1.5.
    let d = toward(1.0, -1.0, 0.0);
    let n = Vec3::from_ints(0, 1, 0);
    let r = refract(&d, &n, Fixed::from_ratio(3, 2), Fixed::one());
    let sine = 0.5f64.sqrt() / 1.5;
    assert!(close(r, sine, -(1.0 - sine * sine).sqrt(), 0.0, 1e-8));
}

#[test]
fn refract_beyond_the_critical_angle_is_the_sentinel() {
    // Inside glass (index 1.5), leaving into air, at sine 0.8 > 1 / 1.5.
    let d = v3(0.8, 0.6, 0.0);
    let n = Vec3::from_ints(0, 1, 0);
    assert_eq!(refract(&d, &n, Fixed::from_ratio(3, 2), Fixed::one()), Vec3::from_ints(1, 0, 0));
    // The same with the normal already turned and the indices exchanged.
    let turned = Vec3::from_ints(0, -1, 0);
    assert_eq!(
        refract(&d, &turned, Fixed::one(), Fixed::from_ratio(3, 2)),
        Vec3::from_ints(1, 0, 0)
    );
    // Below the critical angle the ray leaves.
    let d = v3(0.6, 0.8, 0.0);
    let r = refract(&d, &n, Fixed::from_ratio(3, 2), Fixed::one());
    assert!(close(r, 0.9, (1.0f64 - 0.81).sqrt(), 0.0, 1e-8));
}

#[test]
fn ray_meets_sphere_in_front() {
    let s = Sphere { center: Vec3::from_ints(0, 0, -10), radius: Fixed::from_int(2), material: ivory() };
    let origin = Vec3::from_ints(0, 0, 0);
    let d = Vec3::from_ints(0, 0, -1);
    assert_eq!(ray_sphere_intersect(&origin, &d, &s), (true, Fixed::from_int(8)));
    // From the centre the far meeting point counts.
    assert_eq!(ray_sphere_intersect(&s.center, &d, &s), (true, Fixed::from_int(2)));
    // Behind the origin.
    let back = Vec3::from_ints(0, 0, 1);
    assert_eq!(ray_sphere_intersect(&origin, &back, &s), (false, Fixed::zero()));
    // Passing by.
    let aside = Vec3::from_ints(1, 0, 0);
    assert_eq!(ray_sphere_intersect(&origin, &aside, &s), (false, Fixed::zero()));
    // Grazing: the ray touches where d2 == r2.
    let edge = Vec3::from_ints(2, 0, 0);
    assert_eq!(ray_sphere_intersect(&edge, &d, &s), (true, Fixed::from_int(10)));
}

#[test]
fn ray_from_the_surface_does_not_meet_it_again() {
    let s = Sphere { center: Vec3::from_ints(0, 0, -10), radius: Fixed::from_int(2), material: ivory() };
    let surface = Vec3::from_ints(0, 0, -8);
    let outward = Vec3::from_ints(0, 0, 1);
    assert_eq!(ray_sphere_intersect(&surface, &outward, &s), (false, Fixed::zero()));
    let inward = Vec3::from_ints(0, 0, -1);
    assert_eq!(ray_sphere_intersect(&surface, &inward, &s), (true, Fixed::from_int(4)));
}

#[test]
fn checker_tiles_alternate() {
    let grey = Vec3 { x: Fixed::from_ratio(3, 10), y: Fixed::from_ratio(3, 10), z: Fixed::from_ratio(3, 10) };
    let brown = Vec3 { x: Fixed::from_ratio(3, 10), y: Fixed::from_ratio(2, 10), z: Fixed::from_ratio(1, 10) };
    // x / 2 + 1000 = 1000.5 -> 1000, z / 2 = -7.5 -> -7: odd.
    assert_eq!(checker(&v3(1.0, -4.0, -15.0)), grey);
    // 1001.5 -> 1001, -7: even.
    assert_eq!(checker(&v3(3.0, -4.0, -15.0)), brown);
    // 1000, -8.5 -> -8: even.
    assert_eq!(checker(&v3(1.0, -4.0, -17.0)), brown);
    // 999.5 -> 999, -7: even.
    assert_eq!(checker(&v3(-1.0, -4.0, -15.0)), brown);
    // 995.25 -> 995, -14.75 -> -14: odd.
    assert_eq!(checker(&v3(-9.5, -4.0, -29.5)), grey);
}

#[test]
fn floor_is_bounded() {
    let nothing = Nearest {
        distance: Fixed { raw: i64::MAX },
        point: Vec3::from_ints(0, 0, 0),
        normal: Vec3::from_ints(0, 0, 0),
        material: floor(Vec3::from_ints(0, 0, 0)),
    };
    let down = Vec3::from_ints(0, -1, 0);
    let above = floor_step(&Vec3::from_ints(5, 0, -14), &down, nothing);
    assert_eq!(above.distance, Fixed::from_int(4));
    assert_eq!(above.point, Vec3::from_ints(5, -4, -14));
    assert_eq!(above.normal, Vec3::from_ints(0, 1, 0));
    assert_eq!(above.material.albedo[0], Fixed::from_int(2));
    assert_eq!(above.material.diffuse_color, checker(&Vec3::from_ints(5, -4, -14)));
    // Outside the rectangle: x = 10, z = -10, z = -30 are all outside.
    for p in [(10, -14), (-10, -14), (5, -10), (5, -30), (5, 0)] {
        let r = floor_step(&Vec3::from_ints(p.0, 0, p.1), &down, nothing);
        assert_eq!(r.distance.raw, i64::MAX);
    }
    // A horizontal ray never meets the floor, nor one that points away.
    let level = floor_step(&Vec3::from_ints(5, 0, -14), &Vec3::from_ints(0, 0, -1), nothing);
    assert_eq!(level.distance.raw, i64::MAX);
    let up = floor_step(&Vec3::from_ints(5, 0, -14), &Vec3::from_ints(0, 1, 0), nothing);
    assert_eq!(up.distance.raw, i64::MAX);
    // Something nearer stays.
    let near = Nearest { distance: Fixed::from_int(3), ..nothing };
    assert_eq!(floor_step(&Vec3::from_ints(5, 0, -14), &down, near).distance, Fixed::from_int(3));
    // From the floor itself the floor is not met again.
    let on = floor_step(&Vec3::from_ints(5, -4, -14), &down, nothing);
    assert_eq!(on.distance.raw, i64::MAX);
}

#[test]
fn sphere_replaces_what_is_not_nearer() {
    let s = Sphere { center: Vec3::from_ints(0, 0, -10), radius: Fixed::from_int(2), material: mirror() };
    let origin = Vec3::from_ints(0, 0, 0);
    let d = Vec3::from_ints(0, 0, -1);
    let before = Nearest {
        distance: Fixed::from_int(8),
        point: Vec3::from_ints(9, 9, 9),
        normal: Vec3::from_ints(0, 1, 0),
        material: ivory(),
    };
    let after = sphere_step(&origin, &d, before, &s);
    assert_eq!(after.distance, Fixed::from_int(8));
    assert_eq!(after.point, Vec3::from_ints(0, 0, -8));
    assert_eq!(after.normal, Vec3::from_ints(0, 0, 1));
    assert_eq!(after.material.specular_exponent, 1425);
    let nearer = Nearest { distance: Fixed::from_ratio(15, 2), ..before };
    let kept = sphere_step(&origin, &d, nearer, &s);
    assert_eq!(kept.point, Vec3::from_ints(9, 9, 9));
    assert_eq!(kept.material.specular_exponent, 50);
}

#[test]
fn ray_along_negative_z_meets_the_glass_sphere_first() {
    let origin = Vec3::from_ints(0, 0, 0);
    let seen = scene_intersect(&origin, &Vec3::from_ints(0, 0, -1));
    assert!(seen.hit);
    assert!(close(seen.point, 0.0, 0.0, -11.13397459621556, 1e-8));
    assert!(close(seen.normal, 0.5, 0.75, 0.43301270189221963, 1e-8));
    assert_eq!(seen.material.specular_exponent, 125);
}

#[test]
fn rays_at_the_spheres_meet_the_nearest_surface() {
    let origin = Vec3::from_ints(0, 0, 0);
    // Straight at the mirror: nothing stands before it.
    let d = toward(7.0, 5.0, -18.0);
    let seen = scene_intersect(&origin, &d);
    assert!(seen.hit);
    assert_eq!(seen.material.specular_exponent, 1425);
    assert!((as_f64((seen.point - origin).norm()) - 15.949937343260004).abs() < 1e-7);
    // Straight at the red sphere.
    let seen = scene_intersect(&origin, &toward(1.5, -0.5, -18.0));
    assert!(seen.hit);
    assert_eq!(seen.material.specular_exponent, 10);
    assert!((as_f64((seen.point - origin).norm()) - 15.069310999592652).abs() < 1e-7);
    // Straight at the ivory sphere the glass one stands in the way.
    let seen = scene_intersect(&origin, &toward(-3.0, 0.0, -16.0));
    assert!(seen.hit);
    assert_eq!(seen.material.specular_exponent, 125);
    assert!((as_f64((seen.point - origin).norm()) - 11.4882794600901).abs() < 1e-7);
}

#[test]
fn ray_at_the_floor() {
    let origin = Vec3::from_ints(0, 0, 0);
    let seen = scene_intersect(&origin, &toward(5.0, -4.0, -14.0));
    assert!(seen.hit);
    assert!(close(seen.point, 5.0, -4.0, -14.0, 1e-7));
    assert_eq!(seen.normal, Vec3::from_ints(0, 1, 0));
    assert_eq!(seen.material.specular_exponent, 0);
    assert_eq!(seen.material.albedo[0], Fixed::from_int(2));
}

#[test]
fn ray_into_empty_space_sees_the_background() {
    let origin = Vec3::from_ints(0, 0, 0);
    let up = Vec3::from_ints(0, 1, 0);
    assert!(!scene_intersect(&origin, &up).hit);
    assert_eq!(cast_ray(&origin, &up, 0), background());
    assert_eq!(cast_ray(&origin, &up, 4), background());
}

#[test]
fn ray_beyond_the_depth_limit_sees_the_background() {
    let origin = Vec3::from_ints(0, 0, 0);
    let d = toward(7.0, 5.0, -18.0);
    assert!(scene_intersect(&origin, &d).hit);
    assert_eq!(cast_ray(&origin, &d, 5), background());
    assert_eq!(cast_ray(&origin, &d, i32::MAX), background());
    assert!(cast_ray(&origin, &d, 4) != background());
}

#[test]
fn surface_beyond_the_far_limit_is_no_hit() {
    // The mirror seen from 1100 away along the line through its centre.
    let d = toward(7.0, 5.0, -18.0);
    let origin = Vec3::from_ints(7, 5, -18) - d * Fixed::from_int(1100);
    assert!(!scene_intersect(&origin, &d).hit);
    let nearer = Vec3::from_ints(7, 5, -18) - d * Fixed::from_int(900);
    assert!(scene_intersect(&nearer, &d).hit);
}

#[test]
fn sphere_between_point_and_light_casts_a_shadow() {
    // Half a unit below the lowest point of the red sphere.
    let under = v3(1.5, -4.0, -18.0);
    let normal = Vec3::from_ints(0, 1, 0);
    let d = toward(0.0, -1.0, -4.0);
    // The glass sphere hides the first light, the red sphere the second.
    for i in 0..2 {
        assert!(shadowed(&under, &light(i)));
        assert_eq!(light_terms(&under, &normal, &d, 10, &light(i)), (Fixed::zero(), Fixed::zero()));
    }
    assert!(!shadowed(&under, &light(2)));
    assert!(light_terms(&under, &normal, &d, 10, &light(2)).0.raw > 0);
    // Far from every sphere the floor is lit.
    let open = v3(-8.0, -4.0, -12.0);
    assert!(!shadowed(&open, &light(0)));
    let (diffuse, specular) = light_terms(&open, &normal, &d, 0, &light(0));
    let to_light = (light(0) - open).normalized();
    assert_eq!(diffuse, to_light * normal);
    assert!(diffuse.raw > 0);
    assert_eq!(specular, Fixed::one());
}

#[test]
fn shade_sums_the_four_terms() {
    let m = glass();
    let c = shade(
        &m,
        Fixed::from_int(2),
        Fixed::from_int(3),
        Vec3::from_ints(10, 20, 30),
        Vec3::from_ints(100, 200, 300),
    );
    // 0 * colour * 2 + 0.9 * 3 + 0.1 * reflected + 0.8 * refracted
    assert!(close(c, 2.7 + 1.0 + 80.0, 2.7 + 2.0 + 160.0, 2.7 + 3.0 + 240.0, 1e-6));
    let m = red_rubber();
    let c = shade(&m, Fixed::one(), Fixed::zero(), Vec3::from_ints(9, 9, 9), Vec3::from_ints(9, 9, 9));
    assert!(close(c, 0.42, 0.14, 0.14, 1e-8));
}

#[test]
fn ray_at_the_mirror_sees_the_reflected_sky() {
    let origin = Vec3::from_ints(0, 0, 0);
    let c = cast_ray(&origin, &toward(7.0, 5.0, -18.0), 0);
    assert!(close(c, 0.16, 0.56, 0.64, 1e-6));
}

#[test]
fn ray_through_the_glass_sphere() {
    let origin = Vec3::from_ints(0, 0, 0);
    let c = cast_ray(&origin, &Vec3::from_ints(0, 0, -1), 0);
    assert!(close(c, 0.2268945836321624, 0.23689861151242597, 0.18645463939268958, 1e-4));
}

#[test]
fn reflected_direction_is_nearly_unit() {
    let d = toward(0.3, -0.8, -0.52);
    let n = toward(-0.2, 0.9, 0.4);
    let r = reflect(&d, &n).normalized();
    let (x, y, z) = (r.x.raw as i128, r.y.raw as i128, r.z.raw as i128);
    assert!((x * x + y * y + z * z - (1i128 << 64)).abs() <= 16 << 32);
}

#[test]
fn nearest_surface_is_no_farther_than_any_sphere() {
    let origin = Vec3::from_ints(0, 0, 0);
    for d in [toward(0.0, 0.0, -1.0), toward(7.0, 5.0, -18.0), toward(-3.0, 0.0, -16.0), toward(1.0, -1.0, -5.0)] {
        let seen = scene_intersect(&origin, &d);
        assert!(seen.hit);
        let distance = (seen.point - origin).norm();
        let mut met = false;
        for i in 0..SPHERES {
            let (hit, t) = ray_sphere_intersect(&origin, &d, &sphere(i));
            if hit {
                met = met || (t.raw - distance.raw).abs() <= 64;
                assert!(distance.raw <= t.raw + 64);
            }
        }
        assert!(met || seen.material.specular_exponent == 0);
    }
}

#[test]
fn surface_normals_are_nearly_unit() {
    let origin = Vec3::from_ints(0, 0, 0);
    let rays = [
        toward(0.0, 0.0, -1.0),
        toward(7.0, 5.0, -18.0),
        toward(-3.0, 0.0, -16.0),
        toward(1.5, -0.5, -18.0),
        toward(5.0, -4.0, -14.0),
        toward(3.4, 1.1, -18.0),
        toward(-4.9, 0.1, -16.0),
    ];
    for d in rays {
        let seen = scene_intersect(&origin, &d);
        assert!(seen.hit);
        let n = seen.normal;
        let (x, y, z) = (n.x.raw as i128, n.y.raw as i128, n.z.raw as i128);
        assert!((x * x + y * y + z * z - (1i128 << 64)).abs() <= 16 << 32);
        for c in [seen.point.x, seen.point.y, seen.point.z] {
            assert!(c.raw.abs() <= 1024 << 32);
        }
    }
}

#[test]
fn floor_point_lies_on_the_plane() {
    let origin = v3(0.3, 1.7, 2.9);
    for d in [toward(5.0, -4.0, -14.0), toward(-2.0, -3.0, -9.0), toward(0.1, -0.2, -1.0)] {
        let nothing = Nearest {
            distance: Fixed { raw: i64::MAX },
            point: origin,
            normal: origin,
            material: floor(origin),
        };
        let met = floor_step(&origin, &d, nothing);
        assert!(met.distance.raw < i64::MAX);
        assert!((met.point.y.raw + (4i64 << 32)).abs() <= 2);
    }
}

#[test]
fn meeting_point_lies_on_the_sphere() {
    let origin = v3(100.0, -250.0, 640.0);
    for i in 0..SPHERES {
        let ball = sphere(i);
        let d = (ball.center - origin + v3(0.5, -0.25, 0.125)).normalized();
        let (met, t) = ray_sphere_intersect(&origin, &d, &ball);
        assert!(met);
        let offset = origin + d * t - ball.center;
        let (x, y, z) = (offset.x.raw as i128, offset.y.raw as i128, offset.z.raw as i128);
        let r = ball.radius.raw as i128;
        assert!((x * x + y * y + z * z - r * r).abs() <= (1i128 << 24) << 32);
    }
}

#[test]
fn refracted_direction_is_nearly_unit() {
    let d = toward(0.3, -0.8, -0.52);
    let n = toward(-0.2, 0.9, 0.4);
    let glass_index = Fixed::from_ratio(3, 2);
    let cases = [
        refract(&d, &n, glass_index, Fixed::one()),
        refract(&d, &n, Fixed::one(), glass_index),
        refract(&d, &(-n), glass_index, Fixed::one()),
        refract(&d, &n, Fixed::from_int(2), Fixed::one()),
        refract(&v3(0.8, 0.6, 0.0), &Vec3::from_ints(0, 1, 0), glass_index, Fixed::one()),
    ];
    for r in cases {
        assert!((r.square().raw - (1i64 << 32)).abs() <= 512);
        let u = r.normalized();
        let (x, y, z) = (u.x.raw as i128, u.y.raw as i128, u.z.raw as i128);
        assert!((x * x + y * y + z * z - (1i128 << 64)).abs() <= 16 << 32);
    }
}
