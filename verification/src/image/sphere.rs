//! The fixed scene, ray intersection and the recursive shader.
use crate::image::normals::{lemma_hit_is_regular, within};
use crate::image::optics::{
    close, lemma_reflect_keeps_length, lemma_reflect_turns_normal_part,
    lemma_refract_equal_indices,
};
use crate::util::fixed::Fixed;
use crate::util::material::{
    floor, floor_spec, glass, glass_spec, ivory, ivory_spec, mirror, mirror_spec, red_rubber,
    red_rubber_spec, Material,
};
use crate::util::vec3::{PixelOperations, Vec3};
use core::ops::Neg;
use vstd::prelude::*;

verus! {

/// A sphere of the scene.
#[derive(Clone, Copy, Debug)]
pub struct Sphere {
    pub center: Vec3,
    pub radius: Fixed,
    pub material: Material,
}

/// The number of spheres in the scene.
pub const SPHERES: usize = 4;

/// The number of point lights in the scene.
pub const LIGHTS: usize = 3;

/// The vector `(x / 2, y / 2, z / 2)`; every coordinate of the scene is a
/// multiple of one half.
pub open spec fn halves(x: int, y: int, z: int) -> Vec3 {
    Vec3 { x: Fixed::ratio(x, 2), y: Fixed::ratio(y, 2), z: Fixed::ratio(z, 2) }
}

/// The `i`-th sphere of the scene.
pub open spec fn sphere_spec(i: int) -> Sphere {
    if i == 0 {
        Sphere { center: halves(-6, 0, -32), radius: Fixed::ratio(2, 1), material: ivory_spec() }
    } else if i == 1 {
        Sphere { center: halves(-2, -3, -24), radius: Fixed::ratio(2, 1), material: glass_spec() }
    } else if i == 2 {
        Sphere {
            center: halves(3, -1, -36),
            radius: Fixed::ratio(3, 1),
            material: red_rubber_spec(),
        }
    } else {
        Sphere { center: halves(14, 10, -36), radius: Fixed::ratio(4, 1), material: mirror_spec() }
    }
}

/// The position of the `i`-th light.
pub open spec fn light_spec(i: int) -> Vec3 {
    if i == 0 {
        halves(-40, 40, 40)
    } else if i == 1 {
        halves(60, 100, -50)
    } else {
        halves(60, 40, 60)
    }
}

/// The colour of a ray that leaves the scene: (0.2, 0.7, 0.8).
pub open spec fn background_spec() -> Vec3 {
    Vec3 { x: Fixed::ratio(2, 10), y: Fixed::ratio(7, 10), z: Fixed::ratio(8, 10) }
}

/// The smallest ray parameter that counts as a hit: 0.001.
pub open spec fn epsilon_spec() -> Fixed {
    Fixed::ratio(1, 1000)
}

/// The vector `(x / 2, y / 2, z / 2)`.
fn halves_of(x: i32, y: i32, z: i32) -> (r: Vec3)
    ensures
        r == halves(x as int, y as int, z as int),
{
    Vec3 { x: Fixed::from_ratio(x, 2), y: Fixed::from_ratio(y, 2), z: Fixed::from_ratio(z, 2) }
}

/// The `i`-th sphere of the scene.
pub fn sphere(i: usize) -> (s: Sphere)
    requires
        i < SPHERES,
    ensures
        s == sphere_spec(i as int),
{
    if i == 0 {
        Sphere { center: halves_of(-6, 0, -32), radius: Fixed::from_ratio(2, 1), material: ivory() }
    } else if i == 1 {
        Sphere { center: halves_of(-2, -3, -24), radius: Fixed::from_ratio(2, 1), material: glass() }
    } else if i == 2 {
        Sphere {
            center: halves_of(3, -1, -36),
            radius: Fixed::from_ratio(3, 1),
            material: red_rubber(),
        }
    } else {
        Sphere {
            center: halves_of(14, 10, -36),
            radius: Fixed::from_ratio(4, 1),
            material: mirror(),
        }
    }
}

/// The position of the `i`-th light.
pub fn light(i: usize) -> (p: Vec3)
    requires
        i < LIGHTS,
    ensures
        p == light_spec(i as int),
{
    if i == 0 {
        halves_of(-40, 40, 40)
    } else if i == 1 {
        halves_of(60, 100, -50)
    } else {
        halves_of(60, 40, 60)
    }
}

/// The colour of a ray that leaves the scene.
pub fn background() -> (c: Vec3)
    ensures
        c == background_spec(),
{
    Vec3 { x: Fixed::from_ratio(2, 10), y: Fixed::from_ratio(7, 10), z: Fixed::from_ratio(8, 10) }
}

/// The mirror image of `direction` at a surface with the given normal:
/// `D - N * 2 * (D . N)`.
pub open spec fn reflect_spec(direction: Vec3, normal: Vec3) -> Vec3 {
    direction.difference(normal.scaled(Fixed::whole(2)).scaled(direction.dot(normal)))
}

/// The mirror image of `direction` at a surface with the given normal.
///
/// For a nearly unit direction and a nearly unit normal it is as long as
/// the direction, and its part along the normal is the negative of that
/// of the direction, both up to rounding.
pub fn reflect(direction: &Vec3, normal: &Vec3) -> (r: Vec3)
    ensures
        r == reflect_spec(*direction, *normal),
        direction.nearly_unit() && normal.nearly_unit() ==> -512 <= r.squared().raw
            - direction.squared().raw <= 512 && -128 <= r.dot(*normal).raw + direction.dot(
            *normal,
        ).raw <= 128,
{
    proof {
        if direction.nearly_unit() && normal.nearly_unit() {
            lemma_reflect_keeps_length(*direction, *normal);
            lemma_reflect_turns_normal_part(*direction, *normal);
        }
    }
    *direction - *normal * Fixed::from_int(2) * (*direction * *normal)
}

/// The direction that stands for total internal reflection: (1, 0, 0).
pub open spec fn total_reflection_spec() -> Vec3 {
    Vec3 { x: Fixed::whole(1), y: Fixed::whole(0), z: Fixed::whole(0) }
}

/// The cosine of the angle of incidence: `-(D . N)` with `D . N` clamped
/// to [-1, 1].
pub open spec fn cos_incidence(direction: Vec3, normal: Vec3) -> Fixed {
    direction.dot(normal).smaller(Fixed::whole(1)).larger(Fixed::whole(-1)).negation()
}

/// `k = 1 - eta^2 * (1 - c^2)`; negative exactly on total internal reflection.
pub open spec fn refract_discriminant(eta: Fixed, cos: Fixed) -> Fixed {
    Fixed::whole(1).difference(
        eta.product(eta).product(Fixed::whole(1).difference(cos.product(cos))),
    )
}

/// Snell's law for a ray that enters the surface against its normal, with
/// `eta` the ratio of the indices and `cos >= 0` the cosine of incidence.
pub open spec fn transmit_spec(direction: Vec3, normal: Vec3, eta: Fixed, cos: Fixed) -> Vec3 {
    let k = refract_discriminant(eta, cos);
    if k.raw < 0 {
        total_reflection_spec()
    } else {
        direction.scaled(eta).sum(normal.scaled(eta.product(cos).difference(k.root())))
    }
}

/// How many more times `refract_spec` turns the normal round.
pub open spec fn refract_turns(direction: Vec3, normal: Vec3) -> nat {
    let exiting: nat = if cos_incidence(direction, normal).raw < 0 {
        1
    } else {
        0
    };
    if normal.has_lower_bound() {
        2 + exiting
    } else {
        exiting
    }
}

/// Turning the normal round makes a negative cosine of incidence positive.
pub proof fn lemma_turned_normal(direction: Vec3, normal: Vec3)
    requires
        cos_incidence(direction, normal).raw < 0,
    ensures
        !normal.negation().has_lower_bound(),
        !normal.has_lower_bound() ==> cos_incidence(direction, normal.negation()).raw > 0,
        refract_turns(direction, normal.negation()) < refract_turns(direction, normal),
{
    if !normal.has_lower_bound() {
        let turned = normal.negation();
        assert(direction.exact_dot(turned) == -direction.exact_dot(normal)) by (nonlinear_arith)
            requires
                turned.x.raw == -normal.x.raw,
                turned.y.raw == -normal.y.raw,
                turned.z.raw == -normal.z.raw,
        ;
    }
}

/// The refracted direction by Snell's law, for a ray `direction` that
/// meets a surface with outward normal `normal`, between a medium of
/// index `eta_i` outside and one of index `eta_t` inside.
///
/// A ray that leaves the medium (negative cosine of incidence) is treated
/// as one that enters from the other side: normal turned round, indices
/// exchanged.
pub open spec fn refract_spec(direction: Vec3, normal: Vec3, eta_t: Fixed, eta_i: Fixed) -> Vec3
    decreases refract_turns(direction, normal),
{
    let cos = cos_incidence(direction, normal);
    if cos.raw < 0 {
        proof {
            lemma_turned_normal(direction, normal);
        }
        refract_spec(direction, normal.negation(), eta_i, eta_t)
    } else {
        transmit_spec(direction, normal, eta_i.quotient(eta_t), cos)
    }
}

/// The incidence is beyond the critical angle: seen from the side the ray
/// comes from, `1 - eta^2 * (1 - c^2)` is negative.
pub open spec fn totally_reflected(direction: Vec3, normal: Vec3, eta_t: Fixed, eta_i: Fixed) -> bool {
    let cos = cos_incidence(direction, normal);
    if cos.raw >= 0 {
        refract_discriminant(eta_i.quotient(eta_t), cos).raw < 0
    } else {
        let turned = cos_incidence(direction, normal.negation());
        turned.raw >= 0 && refract_discriminant(eta_t.quotient(eta_i), turned).raw < 0
    }
}

/// The refracted direction by Snell's law, or (1, 0, 0) on total
/// internal reflection.  Between media of equal index the direction is
/// kept, up to rounding.
pub fn refract(direction: &Vec3, normal: &Vec3, eta_t: Fixed, eta_i: Fixed) -> (r: Vec3)
    ensures
        r == refract_spec(*direction, *normal, eta_t, eta_i),
        totally_reflected(*direction, *normal, eta_t, eta_i) ==> r == total_reflection_spec(),
        normal.nearly_unit() && eta_t == eta_i && eta_t.raw != 0 ==> close(r.x, direction.x)
            && close(r.y, direction.y) && close(r.z, direction.z),
    decreases refract_turns(*direction, *normal),
{
    proof {
        if normal.nearly_unit() && eta_t == eta_i && eta_t.raw != 0 {
            lemma_refract_equal_indices(*direction, *normal, eta_t);
        }
    }
    let cos: Fixed = (*direction * *normal).min(Fixed::from_int(1)).max(Fixed::from_int(-1)).neg();
    if cos.raw < 0 {
        proof {
            lemma_turned_normal(*direction, *normal);
        }
        let turned: Vec3 = normal.neg();
        return refract(direction, &turned, eta_i, eta_t);
    }
    let eta: Fixed = eta_i / eta_t;
    let one: Fixed = Fixed::from_int(1);
    let k: Fixed = one - eta * eta * (one - cos * cos);
    if k.raw < 0 {
        Vec3::from_ints(1, 0, 0)
    } else {
        *direction * eta + *normal * (eta * cos - k.sqrt())
    }
}

/// The smallest ray parameter that counts as a hit.
pub fn epsilon() -> (e: Fixed)
    ensures
        e == epsilon_spec(),
{
    Fixed::from_ratio(1, 1000)
}

/// Where the ray `origin + t * direction` meets `sphere`: whether it does,
/// and the parameter `t` of the nearest meeting point beyond epsilon.
///
/// With `L` from the origin to the centre, `tca = D . L` and
/// `d2 = L . L - tca^2`, the ray misses when `d2 > r^2`.  Otherwise the
/// two meeting points are `tca - thc` and `tca + thc` with
/// `thc = sqrt(r^2 - d2)`; the first of them above epsilon is the hit.
pub open spec fn ray_sphere_spec(origin: Vec3, direction: Vec3, sphere: Sphere) -> (bool, Fixed) {
    let to_center = sphere.center.difference(origin);
    let projection = direction.dot(to_center);
    let distance2 = to_center.dot(to_center).difference(projection.product(projection));
    let radius2 = sphere.radius.product(sphere.radius);
    if distance2.raw > radius2.raw {
        (false, Fixed { raw: 0 })
    } else {
        let chord_half = radius2.difference(distance2).root();
        let near = projection.difference(chord_half);
        let far = projection.sum(chord_half);
        if near.raw > epsilon_spec().raw {
            (true, near)
        } else if far.raw > epsilon_spec().raw {
            (true, far)
        } else {
            (false, Fixed { raw: 0 })
        }
    }
}

/// Whether the ray meets the sphere beyond epsilon, and at which ray
/// parameter; zero where it does not.
pub fn ray_sphere_intersect(origin: &Vec3, ray_direction: &Vec3, sphere: &Sphere) -> (r: (
    bool,
    Fixed,
))
    ensures
        r == ray_sphere_spec(*origin, *ray_direction, *sphere),
{
    let vec_to_center: Vec3 = sphere.center - *origin;
    let vec_to_center_projection: Fixed = *ray_direction * vec_to_center;
    let distance2: Fixed = vec_to_center * vec_to_center - vec_to_center_projection
        * vec_to_center_projection;
    let radius2: Fixed = sphere.radius * sphere.radius;
    if distance2.raw > radius2.raw {
        return (false, Fixed::zero());
    }
    let chord_half: Fixed = (radius2 - distance2).sqrt();
    let nearest_intersect: Fixed = vec_to_center_projection - chord_half;
    let farthest_intersection: Fixed = vec_to_center_projection + chord_half;
    if nearest_intersect.raw > epsilon().raw {
        return (true, nearest_intersect);
    }
    if farthest_intersection.raw > epsilon().raw {
        (true, farthest_intersection)
    } else {
        (false, Fixed::zero())
    }
}

/// What a ray met first: whether it met anything nearer than the far
/// limit, and the surface point, unit normal and material there.
#[derive(Clone, Copy, Debug)]
pub struct Hit {
    pub hit: bool,
    pub point: Vec3,
    pub normal: Vec3,
    pub material: Material,
}

/// The nearest surface found so far along a ray.
#[derive(Clone, Copy, Debug)]
pub struct Nearest {
    pub distance: Fixed,
    pub point: Vec3,
    pub normal: Vec3,
    pub material: Material,
}

/// The ray parameter from which on a surface no longer counts: 1000.
pub open spec fn far_spec() -> Fixed {
    Fixed::whole(1000)
}

/// The state before anything was tested: nothing found, at the largest
/// distance there is.
pub open spec fn nothing_spec() -> Nearest {
    let origin = Vec3 { x: Fixed { raw: 0 }, y: Fixed { raw: 0 }, z: Fixed { raw: 0 } };
    Nearest {
        distance: Fixed { raw: i64::MAX },
        point: origin,
        normal: origin,
        material: floor_spec(origin),
    }
}

/// The colour of the floor at `point`: tiles of side 2, alternately
/// (0.3, 0.3, 0.3) and (0.3, 0.2, 0.1).  The tile is found from the
/// integer parts of `x / 2 + 1000` and `z / 2`, rounded toward zero.
pub open spec fn checker_spec(point: Vec3) -> Vec3 {
    let half = Fixed::ratio(1, 2);
    let column = half.product(point.x).sum(Fixed::whole(1000)).truncated();
    let row = half.product(point.z).truncated();
    if (column + row) % 2 == 1 {
        Vec3 { x: Fixed::ratio(3, 10), y: Fixed::ratio(3, 10), z: Fixed::ratio(3, 10) }
    } else {
        Vec3 { x: Fixed::ratio(3, 10), y: Fixed::ratio(2, 10), z: Fixed::ratio(1, 10) }
    }
}

/// The ray parameter at which the ray crosses the plane `y = -4`.
pub open spec fn floor_distance_spec(origin: Vec3, direction: Vec3) -> Fixed {
    origin.y.sum(Fixed::whole(4)).negation().quotient(direction.y)
}

/// The point `origin + direction * t`.
pub open spec fn along_spec(origin: Vec3, direction: Vec3, t: Fixed) -> Vec3 {
    origin.sum(direction.scaled(t))
}

/// Whether the ray meets the floor nearer than `limit`: it is not
/// horizontal (`|D.y| > 0.001`), crosses `y = -4` beyond epsilon, and does
/// so within `|x| < 10`, `-30 < z < -10`.
pub open spec fn meets_floor(origin: Vec3, direction: Vec3, limit: Fixed) -> bool {
    let t = floor_distance_spec(origin, direction);
    let point = along_spec(origin, direction, t);
    &&& direction.y.magnitude().raw > epsilon_spec().raw
    &&& t.raw > epsilon_spec().raw
    &&& t.raw < limit.raw
    &&& point.x.magnitude().raw < Fixed::whole(10).raw
    &&& point.z.raw < Fixed::whole(-10).raw
    &&& point.z.raw > Fixed::whole(-30).raw
}

/// The state after the floor was tested.
pub open spec fn floor_step_spec(origin: Vec3, direction: Vec3, before: Nearest) -> Nearest {
    if meets_floor(origin, direction, before.distance) {
        let t = floor_distance_spec(origin, direction);
        let point = along_spec(origin, direction, t);
        Nearest {
            distance: t,
            point,
            normal: Vec3 { x: Fixed::whole(0), y: Fixed::whole(1), z: Fixed::whole(0) },
            material: floor_spec(checker_spec(point)),
        }
    } else {
        before
    }
}

/// The state after one sphere was tested: the sphere replaces what was
/// found before when the ray meets it no farther away.
pub open spec fn sphere_step_spec(
    origin: Vec3,
    direction: Vec3,
    before: Nearest,
    sphere: Sphere,
) -> Nearest {
    let (met, t) = ray_sphere_spec(origin, direction, sphere);
    if !met || t.raw > before.distance.raw {
        before
    } else {
        let point = along_spec(origin, direction, t);
        Nearest {
            distance: t,
            point,
            normal: point.difference(sphere.center).unit(),
            material: sphere.material,
        }
    }
}

/// The nearest surface among the floor and the first `n` spheres.
pub open spec fn nearest_spec(origin: Vec3, direction: Vec3, n: nat) -> Nearest
    decreases n,
{
    if n == 0 {
        floor_step_spec(origin, direction, nothing_spec())
    } else {
        sphere_step_spec(
            origin,
            direction,
            nearest_spec(origin, direction, (n - 1) as nat),
            sphere_spec(n - 1),
        )
    }
}

/// What the ray meets first in the scene.  It counts as a hit when the
/// nearest surface lies before the far limit.
pub open spec fn scene_spec(origin: Vec3, direction: Vec3) -> Hit {
    let nearest = nearest_spec(origin, direction, SPHERES as nat);
    Hit {
        hit: nearest.distance.raw < far_spec().raw,
        point: nearest.point,
        normal: nearest.normal,
        material: nearest.material,
    }
}

/// The nearest surface is no farther than any sphere among the first `n`
/// that the ray meets, nor than the floor where the ray meets it.
pub proof fn lemma_nearest_is_not_farther(origin: Vec3, direction: Vec3, n: nat)
    ensures
        forall|i: int|
            0 <= i < n && (#[trigger] ray_sphere_spec(origin, direction, sphere_spec(i))).0
                ==> nearest_spec(origin, direction, n).distance.raw <= ray_sphere_spec(
                origin,
                direction,
                sphere_spec(i),
            ).1.raw,
        meets_floor(origin, direction, nothing_spec().distance) ==> nearest_spec(
            origin,
            direction,
            n,
        ).distance.raw <= floor_distance_spec(origin, direction).raw,
    decreases n,
{
    if n > 0 {
        lemma_nearest_is_not_farther(origin, direction, (n - 1) as nat);
    }
}

/// The nearest surface is one that the ray meets: nothing at all, the
/// floor, or one of the first `n` spheres, with the distance, point, unit
/// normal and material of that one.
pub proof fn lemma_nearest_is_met(origin: Vec3, direction: Vec3, n: nat)
    ensures
        ({
            let nearest = nearest_spec(origin, direction, n);
            ||| nearest == nothing_spec()
            ||| meets_floor(origin, direction, nothing_spec().distance) && nearest == floor_step_spec(
                origin,
                direction,
                nothing_spec(),
            )
            ||| exists|i: int|
                0 <= i < n && (#[trigger] ray_sphere_spec(origin, direction, sphere_spec(i))).0
                    && nearest == sphere_step_spec(
                    origin,
                    direction,
                    Nearest { distance: Fixed { raw: i64::MAX }, ..nearest },
                    sphere_spec(i),
                )
        }),
    decreases n,
{
    if n > 0 {
        lemma_nearest_is_met(origin, direction, (n - 1) as nat);
        let before = nearest_spec(origin, direction, (n - 1) as nat);
        let nearest = nearest_spec(origin, direction, n);
        let (met, t) = ray_sphere_spec(origin, direction, sphere_spec(n - 1));
        if !met || t.raw > before.distance.raw {
            assert(nearest == before);
            if exists|i: int|
                0 <= i < n - 1 && (#[trigger] ray_sphere_spec(origin, direction, sphere_spec(i))).0
                    && before == sphere_step_spec(
                    origin,
                    direction,
                    Nearest { distance: Fixed { raw: i64::MAX }, ..before },
                    sphere_spec(i),
                ) {
                let i = choose|i: int|
                    0 <= i < n - 1 && (#[trigger] ray_sphere_spec(
                        origin,
                        direction,
                        sphere_spec(i),
                    )).0 && before == sphere_step_spec(
                        origin,
                        direction,
                        Nearest { distance: Fixed { raw: i64::MAX }, ..before },
                        sphere_spec(i),
                    );
                assert(0 <= i < n && ray_sphere_spec(origin, direction, sphere_spec(i)).0);
            }
        } else {
            assert(ray_sphere_spec(origin, direction, sphere_spec(n - 1)).0);
            assert(nearest == sphere_step_spec(
                origin,
                direction,
                Nearest { distance: Fixed { raw: i64::MAX }, ..nearest },
                sphere_spec(n - 1),
            ));
        }
    }
}

/// The ray hits the scene exactly when it meets the floor or a sphere
/// before the far limit.
pub proof fn lemma_hit_is_a_meeting(origin: Vec3, direction: Vec3)
    ensures
        scene_spec(origin, direction).hit <==> (meets_floor(origin, direction, far_spec())
            || exists|i: int|
            0 <= i < SPHERES && (#[trigger] ray_sphere_spec(origin, direction, sphere_spec(i))).0
                && ray_sphere_spec(origin, direction, sphere_spec(i)).1.raw < far_spec().raw),
{
    lemma_nearest_is_not_farther(origin, direction, SPHERES as nat);
    lemma_nearest_is_met(origin, direction, SPHERES as nat);
    let nearest = nearest_spec(origin, direction, SPHERES as nat);
    if scene_spec(origin, direction).hit {
        assert(nearest != nothing_spec());
        if !meets_floor(origin, direction, far_spec()) {
            let i = choose|i: int|
                0 <= i < SPHERES && (#[trigger] ray_sphere_spec(
                    origin,
                    direction,
                    sphere_spec(i),
                )).0 && nearest == sphere_step_spec(
                    origin,
                    direction,
                    Nearest { distance: Fixed { raw: i64::MAX }, ..nearest },
                    sphere_spec(i),
                );
            assert(ray_sphere_spec(origin, direction, sphere_spec(i)).1.raw < far_spec().raw);
        }
    }
}

/// The colour of the floor at `point`.
pub fn checker(point: &Vec3) -> (c: Vec3)
    ensures
        c == checker_spec(*point),
{
    let half: Fixed = Fixed::from_ratio(1, 2);
    let column: i64 = (half * point.x + Fixed::from_int(1000)).to_int() as i64;
    let row: i64 = (half * point.z).to_int() as i64;
    if (column + row) % 2 != 0 {
        Vec3 { x: Fixed::from_ratio(3, 10), y: Fixed::from_ratio(3, 10), z: Fixed::from_ratio(3, 10) }
    } else {
        Vec3 { x: Fixed::from_ratio(3, 10), y: Fixed::from_ratio(2, 10), z: Fixed::from_ratio(1, 10) }
    }
}

/// Tests the floor against what was found before.
pub fn floor_step(origin: &Vec3, direction: &Vec3, before: Nearest) -> (after: Nearest)
    ensures
        after == floor_step_spec(*origin, *direction, before),
{
    if direction.y.abs().raw > epsilon().raw {
        let distance: Fixed = (origin.y + Fixed::from_int(4)).neg() / direction.y;
        let pixel: Vec3 = *origin + *direction * distance;
        if distance.raw > epsilon().raw && distance.raw < before.distance.raw
            && pixel.x.abs().raw < Fixed::from_int(10).raw && pixel.z.raw < Fixed::from_int(
            -10,
        ).raw && pixel.z.raw > Fixed::from_int(-30).raw {
            return Nearest {
                distance,
                point: pixel,
                normal: Vec3::from_ints(0, 1, 0),
                material: floor(checker(&pixel)),
            };
        }
    }
    before
}

/// Tests one sphere against what was found before.
pub fn sphere_step(origin: &Vec3, direction: &Vec3, before: Nearest, sphere: &Sphere) -> (after:
    Nearest)
    ensures
        after == sphere_step_spec(*origin, *direction, before, *sphere),
{
    let (intersected, distance) = ray_sphere_intersect(origin, direction, sphere);
    if !intersected || distance.raw > before.distance.raw {
        return before;
    }
    let point: Vec3 = *origin + *direction * distance;
    Nearest {
        distance,
        point,
        normal: (point - sphere.center).normalized(),
        material: sphere.material,
    }
}

/// What the ray meets first in the scene: the floor or a sphere.
///
/// For a ray of nearly unit direction from within 1024 of the zero point,
/// the normal of a hit is nearly unit and the surface point lies within
/// 1024 of the zero point again.
pub fn scene_intersect(origin: &Vec3, direction: &Vec3) -> (r: Hit)
    ensures
        r == scene_spec(*origin, *direction),
        r.hit && direction.nearly_unit() && within(*origin, 1024) ==> r.normal.nearly_unit()
            && within(r.point, 1024),
{
    proof {
        if scene_spec(*origin, *direction).hit && direction.nearly_unit() && within(*origin, 1024) {
            lemma_hit_is_regular(*origin, *direction);
        }
    }
    let zero: Vec3 = Vec3 { x: Fixed::zero(), y: Fixed::zero(), z: Fixed::zero() };
    let nothing = Nearest {
        distance: Fixed { raw: i64::MAX },
        point: zero,
        normal: zero,
        material: floor(zero),
    };
    let mut nearest: Nearest = floor_step(origin, direction, nothing);
    let mut i: usize = 0;
    while i < SPHERES
        invariant
            i <= SPHERES,
            nearest == nearest_spec(*origin, *direction, i as nat),
        decreases SPHERES - i,
    {
        let s: Sphere = sphere(i);
        nearest = sphere_step(origin, direction, nearest, &s);
        i = i + 1;
    }
    Hit {
        hit: nearest.distance.raw < Fixed::from_int(1000).raw,
        point: nearest.point,
        normal: nearest.normal,
        material: nearest.material,
    }
}

/// Whether something of the scene stands between `point` and `light`:
/// the ray from `point` toward the light hits, and the hit lies nearer to
/// `point` than the light does.
pub open spec fn shadowed_spec(point: Vec3, light: Vec3) -> bool {
    let to_light = light.difference(point);
    let seen = scene_spec(point, to_light.unit());
    seen.hit && seen.point.difference(point).length().raw < to_light.length().raw
}

/// What one light adds to the diffuse and to the specular intensity at a
/// surface point seen along `direction`: nothing when the light is hidden;
/// otherwise `max(0, L . N)` and `max(0, -reflect(-L, N) . D)^exponent`,
/// with `L` the unit direction toward the light.
pub open spec fn light_terms_spec(
    point: Vec3,
    normal: Vec3,
    direction: Vec3,
    exponent: u32,
    light: Vec3,
) -> (Fixed, Fixed) {
    if shadowed_spec(point, light) {
        (Fixed { raw: 0 }, Fixed { raw: 0 })
    } else {
        let toward = light.difference(point).unit();
        (
            toward.dot(normal).larger(Fixed { raw: 0 }),
            reflect_spec(toward.negation(), normal).negation().dot(direction).larger(
                Fixed { raw: 0 },
            ).power(exponent as nat),
        )
    }
}

/// The diffuse and specular intensity from the first `n` lights.
pub open spec fn lighting_spec(
    point: Vec3,
    normal: Vec3,
    direction: Vec3,
    exponent: u32,
    n: nat,
) -> (Fixed, Fixed)
    decreases n,
{
    if n == 0 {
        (Fixed { raw: 0 }, Fixed { raw: 0 })
    } else {
        let before = lighting_spec(point, normal, direction, exponent, (n - 1) as nat);
        let added = light_terms_spec(point, normal, direction, exponent, light_spec(n - 1));
        (before.0.sum(added.0), before.1.sum(added.1))
    }
}

/// The Whitted sum: diffuse colour, white highlight, reflected and
/// refracted colour, each scaled by its albedo weight.
pub open spec fn shade_spec(
    material: Material,
    diffuse: Fixed,
    specular: Fixed,
    reflected: Vec3,
    refracted: Vec3,
) -> Vec3 {
    let white = Vec3 { x: Fixed::whole(1), y: Fixed::whole(1), z: Fixed::whole(1) };
    material.diffuse_color.scaled(diffuse).scaled(material.albedo[0]).sum(
        white.scaled(specular).scaled(material.albedo[1]),
    ).sum(reflected.scaled(material.albedo[2])).sum(refracted.scaled(material.albedo[3]))
}

/// The deepest level of recursion that is still shaded.
pub const MAX_DEPTH: i32 = 4;

/// The radiance that arrives along the ray, `depth` bounces after the
/// primary ray.
///
/// A ray that meets nothing, or one deeper than [`MAX_DEPTH`], sees the
/// background.  Otherwise the surface is shaded from the lights and from
/// one reflected and one refracted ray, both cast from the surface point
/// itself, one level deeper.
pub open spec fn radiance_spec(origin: Vec3, direction: Vec3, depth: int) -> Vec3
    decreases MAX_DEPTH + 1 - depth,
{
    let seen = scene_spec(origin, direction);
    if depth > MAX_DEPTH || !seen.hit {
        background_spec()
    } else {
        let reflect_direction = reflect_spec(direction, seen.normal).unit();
        let refract_direction = refract_spec(
            direction,
            seen.normal,
            seen.material.refractive_index,
            Fixed::whole(1),
        ).unit();
        let lit = lighting_spec(
            seen.point,
            seen.normal,
            direction,
            seen.material.specular_exponent,
            LIGHTS as nat,
        );
        shade_spec(
            seen.material,
            lit.0,
            lit.1,
            radiance_spec(seen.point, reflect_direction, depth + 1),
            radiance_spec(seen.point, refract_direction, depth + 1),
        )
    }
}

/// Whether something of the scene stands between `point` and `light`.
pub fn shadowed(point: &Vec3, light: &Vec3) -> (b: bool)
    ensures
        b == shadowed_spec(*point, *light),
{
    let to_light: Vec3 = *light - *point;
    let light_direction: Vec3 = to_light.normalized();
    let seen: Hit = scene_intersect(point, &light_direction);
    seen.hit && (seen.point - *point).norm().raw < to_light.norm().raw
}

/// What one light adds to the diffuse and to the specular intensity.
pub fn light_terms(point: &Vec3, normal: &Vec3, direction: &Vec3, exponent: u32, light: &Vec3) -> (r:
    (Fixed, Fixed))
    ensures
        r == light_terms_spec(*point, *normal, *direction, exponent, *light),
        shadowed_spec(*point, *light) ==> r.0.raw == 0 && r.1.raw == 0,
{
    if shadowed(point, light) {
        return (Fixed::zero(), Fixed::zero());
    }
    let light_direction: Vec3 = (*light - *point).normalized();
    let away: Vec3 = light_direction.neg();
    let diffuse: Fixed = (light_direction * *normal).max(Fixed::zero());
    let specular: Fixed = (reflect(&away, normal).neg() * *direction).max(Fixed::zero()).powi(
        exponent,
    );
    (diffuse, specular)
}

/// The Whitted sum of the four shading terms.
pub fn shade(
    material: &Material,
    diffuse: Fixed,
    specular: Fixed,
    reflected: Vec3,
    refracted: Vec3,
) -> (c: Vec3)
    ensures
        c == shade_spec(*material, diffuse, specular, reflected, refracted),
{
    material.diffuse_color * diffuse * material.albedo[0] + Vec3::from_ints(1, 1, 1) * specular
        * material.albedo[1] + reflected * material.albedo[2] + refracted * material.albedo[3]
}

/// The radiance that arrives along the ray, `depth` bounces after the
/// primary ray: the background for a ray that meets nothing or is deeper
/// than [`MAX_DEPTH`], else the Whitted sum at the surface.
pub fn cast_ray(origin: &Vec3, direction: &Vec3, depth: i32) -> (c: Vec3)
    ensures
        c == radiance_spec(*origin, *direction, depth as int),
        depth > MAX_DEPTH || !scene_spec(*origin, *direction).hit ==> c == background_spec(),
    decreases MAX_DEPTH + 1 - depth,
{
    let seen: Hit = scene_intersect(origin, direction);
    if depth > MAX_DEPTH || !seen.hit {
        return background();
    }
    let reflect_direction: Vec3 = reflect(direction, &seen.normal).normalized();
    let refract_direction: Vec3 = refract(
        direction,
        &seen.normal,
        seen.material.refractive_index,
        Fixed::from_int(1),
    ).normalized();
    let reflect_color: Vec3 = cast_ray(&seen.point, &reflect_direction, depth + 1);
    let refract_color: Vec3 = cast_ray(&seen.point, &refract_direction, depth + 1);
    let mut diffuse_light_intensity: Fixed = Fixed::zero();
    let mut specular_light_intensity: Fixed = Fixed::zero();
    let mut i: usize = 0;
    while i < LIGHTS
        invariant
            i <= LIGHTS,
            (diffuse_light_intensity, specular_light_intensity) == lighting_spec(
                seen.point,
                seen.normal,
                *direction,
                seen.material.specular_exponent,
                i as nat,
            ),
        decreases LIGHTS - i,
    {
        let position: Vec3 = light(i);
        let (diffuse, specular) = light_terms(
            &seen.point,
            &seen.normal,
            direction,
            seen.material.specular_exponent,
            &position,
        );
        diffuse_light_intensity = diffuse_light_intensity + diffuse;
        specular_light_intensity = specular_light_intensity + specular;
        i = i + 1;
    }
    shade(
        &seen.material,
        diffuse_light_intensity,
        specular_light_intensity,
        reflect_color,
        refract_color,
    )
}

} // verus!
