use raytracer::util::fixed::{Fixed, ONE_RAW};

#[test]
fn one_is_two_to_the_32() {
    assert_eq!(ONE_RAW, 4294967296);
    assert_eq!(Fixed::one().raw, 4294967296);
    assert_eq!(Fixed::zero().raw, 0);
    assert_eq!(Fixed::from_int(-3).raw, -3 * 4294967296);
    assert_eq!(Fixed::from_int(i32::MIN).raw, i64::MIN);
}

#[test]
fn from_u64_clamps() {
    assert_eq!(Fixed::from_u64(5), Fixed::from_int(5));
    assert_eq!(Fixed::from_u64((1 << 31) - 1).raw, ((1i64 << 31) - 1) << 32);
    assert_eq!(Fixed::from_u64(1 << 31).raw, i64::MAX);
    assert_eq!(Fixed::from_u64(u64::MAX).raw, i64::MAX);
}

#[test]
fn ratios_round_down() {
    assert_eq!(Fixed::from_ratio(1, 3).raw, 1431655765);
    assert_eq!(Fixed::from_ratio(-1, 3).raw, -1431655766);
    assert_eq!(Fixed::from_ratio(1, -3).raw, -1431655766);
    assert_eq!(Fixed::from_ratio(-1, -3).raw, 1431655765);
    assert_eq!(Fixed::from_ratio(5, 2).raw, 5 << 31);
    assert_eq!(Fixed::from_ratio(1, 1000).raw, 4294967);
}

#[test]
fn division_by_zero_gives_the_bound_of_the_sign() {
    assert_eq!((Fixed::one() / Fixed::zero()).raw, i64::MAX);
    assert_eq!((-Fixed::one() / Fixed::zero()).raw, i64::MIN);
    assert_eq!((Fixed::zero() / Fixed::zero()).raw, 0);
}

#[test]
fn products_round_down() {
    let half = Fixed::from_ratio(1, 2);
    assert_eq!((Fixed { raw: 3 } * half).raw, 1);
    assert_eq!((Fixed { raw: -3 } * half).raw, -2);
    assert_eq!((Fixed::from_ratio(1, 3) * Fixed::from_int(3)).raw, 4294967295);
    assert_eq!(Fixed::from_int(-6) * Fixed::from_int(7), Fixed::from_int(-42));
}

#[test]
fn sums_and_products_clamp() {
    let top = Fixed { raw: i64::MAX };
    let bottom = Fixed { raw: i64::MIN };
    assert_eq!(top + Fixed { raw: 1 }, top);
    assert_eq!(bottom - Fixed { raw: 1 }, bottom);
    assert_eq!(bottom + top, Fixed { raw: -1 });
    assert_eq!(Fixed::from_int(60000) * Fixed::from_int(40000), top);
    assert_eq!(Fixed::from_int(60000) * Fixed::from_int(-40000), bottom);
    assert_eq!(Fixed::from_int(60000) / Fixed { raw: 1 }, top);
    assert_eq!(-bottom, top);
    assert_eq!(bottom.abs(), top);
    assert_eq!(bottom * bottom, top);
}

#[test]
fn square_roots_round_down() {
    assert_eq!(Fixed::from_int(81).sqrt(), Fixed::from_int(9));
    assert_eq!(Fixed::from_int(2).sqrt().raw, 6074000999);
    assert_eq!(Fixed::from_ratio(1, 2).sqrt().raw, 3037000499);
    assert_eq!(Fixed::zero().sqrt().raw, 0);
    assert_eq!(Fixed { raw: 1 }.sqrt().raw, 65536);
    assert_eq!(Fixed { raw: -1 }.sqrt().raw, 0);
    assert_eq!(Fixed::from_int(-4).sqrt().raw, 0);
    let top = Fixed { raw: i64::MAX }.sqrt();
    assert_eq!(top.raw, 199032864766430);
}

#[test]
fn powers_by_squaring() {
    assert_eq!(Fixed::from_int(2).powi(10), Fixed::from_int(1024));
    assert_eq!(Fixed::from_ratio(1, 2).powi(3), Fixed::from_ratio(1, 8));
    assert_eq!(Fixed::from_int(-3).powi(3), Fixed::from_int(-27));
    assert_eq!(Fixed::from_int(7).powi(0), Fixed::one());
    assert_eq!(Fixed::zero().powi(0), Fixed::one());
    assert_eq!(Fixed::zero().powi(5), Fixed::zero());
    assert_eq!(Fixed::one().powi(1425), Fixed::one());
    assert_eq!(Fixed::from_ratio(3, 7).powi(1), Fixed::from_ratio(3, 7));
    assert_eq!(Fixed::from_int(2).powi(31).raw, i64::MAX);
}

#[test]
fn power_of_a_fraction_is_close_to_the_real_power() {
    let x = Fixed::from_ratio(999, 1000);
    let p = x.powi(1425).raw as f64 / 4294967296.0;
    let real = 0.999f64.powi(1425);
    assert!((p - real).abs() < 1e-5);
}

#[test]
fn integer_part_rounds_toward_zero() {
    assert_eq!(Fixed::from_ratio(5, 2).to_int(), 2);
    assert_eq!(Fixed::from_ratio(-5, 2).to_int(), -2);
    assert_eq!(Fixed::from_int(-3).to_int(), -3);
    assert_eq!(Fixed { raw: -1 }.to_int(), 0);
    assert_eq!(Fixed { raw: i64::MIN }.to_int(), i32::MIN);
    assert_eq!(Fixed { raw: i64::MAX }.to_int(), i32::MAX);
}

#[test]
fn larger_and_smaller() {
    let a = Fixed::from_int(-2);
    let b = Fixed::from_ratio(1, 3);
    assert_eq!(a.max(b), b);
    assert_eq!(a.min(b), a);
    assert_eq!(a.abs(), Fixed::from_int(2));
    assert_eq!(b.abs(), b);
}

#[test]
fn powers_of_a_fraction_stay_fractions() {
    for (num, den) in [(0, 1), (1, 1), (1, 3), (999, 1000), (1, 1000000)] {
        let x = Fixed::from_ratio(num, den);
        for n in [0u32, 1, 2, 3, 10, 50, 125, 1425, u32::MAX] {
            let p = x.powi(n);
            assert!(0 <= p.raw && p.raw <= ONE_RAW);
        }
    }
}

#[test]
fn product_of_fractions_is_no_larger_than_either() {
    let a = Fixed::from_ratio(2, 3);
    let b = Fixed::from_ratio(5, 7);
    let p = a * b;
    assert!(0 <= p.raw && p.raw <= a.raw && p.raw <= b.raw);
    assert_eq!(Fixed::one() * a, a);
    assert_eq!(a * Fixed::one(), a);
    assert_eq!(a / a, Fixed::one());
    assert_eq!(-a / -a, Fixed::one());
}
