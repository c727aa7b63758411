use raytracer::image::api::{render, render_frame};
use raytracer::util::fixed::Fixed;

// A plain model of the same scene in double precision, to hold the
// fixed-point renderer against.

type V = [f64; 3];

struct Look {
    index: f64,
    albedo: [f64; 4],
    color: V,
    exponent: f64,
}

struct Ball {
    center: V,
    radius: f64,
    look: Look,
}

fn add(a: V, b: V) -> V {
    [a[0] + b[0], a[1] + b[1], a[2] + b[2]]
}

fn sub(a: V, b: V) -> V {
    [a[0] - b[0], a[1] - b[1], a[2] - b[2]]
}

fn scale(a: V, k: f64) -> V {
    [a[0] * k, a[1] * k, a[2] * k]
}

fn dot(a: V, b: V) -> f64 {
    a[0] * b[0] + a[1] * b[1] + a[2] * b[2]
}

fn norm(a: V) -> f64 {
    dot(a, a).sqrt()
}

fn unit(a: V) -> V {
    scale(a, 1.0 / norm(a))
}

fn balls() -> Vec<Ball> {
    vec![
        Ball {
            center: [-3.0, 0.0, -16.0],
            radius: 2.0,
            look: Look { index: 1.0, albedo: [0.9, 0.5, 0.1, 0.0], color: [0.4, 0.4, 0.3], exponent: 50.0 },
        },
        Ball {
            center: [-1.0, -1.5, -12.0],
            radius: 2.0,
            look: Look { index: 1.5, albedo: [0.0, 0.9, 0.1, 0.8], color: [0.6, 0.7, 0.8], exponent: 125.0 },
        },
        Ball {
            center: [1.5, -0.5, -18.0],
            radius: 3.0,
            look: Look { index: 1.0, albedo: [1.4, 0.3, 0.0, 0.0], color: [0.3, 0.1, 0.1], exponent: 10.0 },
        },
        Ball {
            center: [7.0, 5.0, -18.0],
            radius: 4.0,
            look: Look { index: 1.0, albedo: [0.0, 16.0, 0.8, 0.0], color: [1.0, 1.0, 1.0], exponent: 1425.0 },
        },
    ]
}

fn lights() -> [V; 3] {
    [[-20.0, 20.0, 20.0], [30.0, 50.0, -25.0], [30.0, 20.0, 30.0]]
}

fn mirrored(d: V, n: V) -> V {
    sub(d, scale(scale(n, 2.0), dot(d, n)))
}

fn bent(d: V, n: V, eta_t: f64, eta_i: f64) -> V {
    let c = -dot(d, n).min(1.0).max(-1.0);
    if c < 0.0 {
        return bent(d, scale(n, -1.0), eta_i, eta_t);
    }
    let eta = eta_i / eta_t;
    let k = 1.0 - eta * eta * (1.0 - c * c);
    if k < 0.0 {
        [1.0, 0.0, 0.0]
    } else {
        add(scale(d, eta), scale(n, eta * c - k.sqrt()))
    }
}

fn meet(o: V, d: V, ball: &Ball) -> Option<f64> {
    let l = sub(ball.center, o);
    let tca = dot(d, l);
    let d2 = dot(l, l) - tca * tca;
    if d2 > ball.radius * ball.radius {
        return None;
    }
    let thc = (ball.radius * ball.radius - d2).sqrt();
    if tca - thc > 1e-3 {
        Some(tca - thc)
    } else if tca + thc > 1e-3 {
        Some(tca + thc)
    } else {
        None
    }
}

// The nearest surface: distance, point, normal, index, albedo, colour and
// exponent; and how close the decision between two tiles of the floor was.
fn scene(o: V, d: V) -> Option<(f64, V, V, f64, [f64; 4], V, f64)> {
    let mut best: Option<(f64, V, V, f64, [f64; 4], V, f64)> = None;
    if d[1].abs() > 1e-3 {
        let t = -(o[1] + 4.0) / d[1];
        let p = add(o, scale(d, t));
        if t > 1e-3 && p[0].abs() < 10.0 && p[2] < -10.0 && p[2] > -30.0 {
            let odd = (((0.5 * p[0] + 1000.0) as i32 + (0.5 * p[2]) as i32) & 1) == 1;
            let color = if odd { [0.3, 0.3, 0.3] } else { [0.3, 0.2, 0.1] };
            best = Some((t, p, [0.0, 1.0, 0.0], 1.0, [2.0, 0.0, 0.0, 0.0], color, 0.0));
        }
    }
    for ball in balls().iter() {
        if let Some(t) = meet(o, d, ball) {
            if best.as_ref().map_or(true, |b| t <= b.0) {
                let p = add(o, scale(d, t));
                let look = &ball.look;
                best = Some((
                    t,
                    p,
                    unit(sub(p, ball.center)),
                    look.index,
                    look.albedo,
                    look.color,
                    look.exponent,
                ));
            }
        }
    }
    best.filter(|b| b.0 < 1000.0)
}

fn cast(o: V, d: V, depth: i32) -> V {
    let seen = match scene(o, d) {
        Some(seen) if depth <= 4 => seen,
        _ => return [0.2, 0.7, 0.8],
    };
    let (_, p, n, index, albedo, color, exponent) = seen;
    let reflected = cast(p, unit(mirrored(d, n)), depth + 1);
    let refracted = cast(p, unit(bent(d, n, index, 1.0)), depth + 1);
    let mut diffuse = 0.0;
    let mut specular = 0.0;
    for light in lights() {
        let toward = unit(sub(light, p));
        if let Some(shadow) = scene(p, toward) {
            if norm(sub(shadow.1, p)) < norm(sub(light, p)) {
                continue;
            }
        }
        diffuse += dot(toward, n).max(0.0);
        specular += dot(scale(mirrored(scale(toward, -1.0), n), -1.0), d).max(0.0).powf(exponent);
    }
    let mut sum = scale(scale(color, diffuse), albedo[0]);
    sum = add(sum, scale(scale([1.0, 1.0, 1.0], specular), albedo[1]));
    sum = add(sum, scale(reflected, albedo[2]));
    add(sum, scale(refracted, albedo[3]))
}

fn primary(p: u32, w: u32, h: u32) -> V {
    let dx = ((p % w) as f64 + 0.5) - w as f64 / 2.0;
    let dy = -(p as f64 / w as f64 + 0.5) + h as f64 / 2.0;
    let dz = -(h as f64) / 2.0;
    unit([dx, dy, dz])
}

fn tone(c: V) -> [u8; 3] {
    let m = c[0].max(c[1]).max(c[2]).max(1.0);
    [
        (255.0 * c[0] / m).round().min(255.0).max(0.0) as u8,
        (255.0 * c[1] / m).round().min(255.0).max(0.0) as u8,
        (255.0 * c[2] / m).round().min(255.0).max(0.0) as u8,
    ]
}

fn near(a: u8, b: u8) -> bool {
    (a as i32 - b as i32).abs() <= 1
}

// How many pixels of a render differ from the model by more than one unit
// in some channel.
fn strays(width: u32, height: u32) -> usize {
    let bytes = render(width, height, Fixed::one());
    assert_eq!(bytes.len(), 3 * (width * height) as usize);
    let mut strays = 0;
    for p in 0..width * height {
        let want = tone(cast([0.0, 0.0, 0.0], primary(p, width, height), 0));
        let i = 3 * p as usize;
        if !(near(bytes[i], want[0]) && near(bytes[i + 1], want[1]) && near(bytes[i + 2], want[2])) {
            strays += 1;
        }
    }
    strays
}

#[test]
fn radiance_agrees_with_the_model() {
    let (width, height) = (24u32, 18u32);
    let frame = render_frame(width, height, Fixed::one());
    let mut strays = 0;
    for p in 0..width * height {
        let want = cast([0.0, 0.0, 0.0], primary(p, width, height), 0);
        let got = frame[p as usize];
        let got = [
            got.x.raw as f64 / 4294967296.0,
            got.y.raw as f64 / 4294967296.0,
            got.z.raw as f64 / 4294967296.0,
        ];
        let scale = norm(want).max(1.0);
        if norm(sub(got, want)) > 1e-3 * scale {
            strays += 1;
        }
    }
    // Only a ray that grazes an edge, where the last bit decides what it
    // meets, may see something else than the model does.
    assert!(strays * 50 <= (width * height) as usize);
}

#[test]
fn render_agrees_with_the_model_at_32_by_24() {
    assert!(strays(32, 24) * 50 <= 32 * 24);
}

#[test]
fn render_agrees_with_the_model_at_50_by_20() {
    assert!(strays(50, 20) * 50 <= 50 * 20);
}

#[test]
fn render_shows_sky_above_and_floor_below() {
    let (width, height) = (32u32, 24u32);
    let bytes = render(width, height, Fixed::one());
    let pixel = |x: u32, y: u32| {
        let i = 3 * (y * width + x) as usize;
        (bytes[i], bytes[i + 1], bytes[i + 2])
    };
    // The top row is sky.
    for x in 0..width {
        assert_eq!(pixel(x, 0), (51, 178, 204));
    }
    // Below the spheres lies the floor, in greys and browns: red is the
    // largest channel and blue the smallest.
    let (r, g, b) = pixel(22, 15);
    assert!(r >= g && g >= b && r > 0);
    // The mirror shows a highlight.
    assert!((0..width * height).any(|p| pixel(p % width, p / width) == (255, 255, 255)));
    // The red sphere is red.
    let (r, g, b) = pixel(18, 12);
    assert!(r > 2 * g && r > 2 * b);
}
