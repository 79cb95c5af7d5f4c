use staking::{Decimal, Instant};

fn attos(v: u64) -> Decimal {
    Decimal { lo: v, mid: 0, hi: 0 }
}

const MAX: Decimal = Decimal { lo: u64::MAX, mid: u64::MAX, hi: 0x7fff_ffff_ffff_ffff };
const MIN: Decimal = Decimal { lo: 0, mid: 0, hi: 0x8000_0000_0000_0000 };

#[test]
fn zero_has_no_limbs_set() {
    assert_eq!(Decimal::zero(), Decimal { lo: 0, mid: 0, hi: 0 });
}

#[test]
fn from_int_scales_by_ten_to_the_eighteenth() {
    assert_eq!(Decimal::from_int(1), attos(1_000_000_000_000_000_000));
    assert_eq!(Decimal::from_int(7), attos(7_000_000_000_000_000_000));
    // 100 * 10^18 = 5 * 2^64 + 7766279631452241920
    assert_eq!(Decimal::from_int(100), Decimal { lo: 7766279631452241920, mid: 5, hi: 0 });
}

#[test]
fn from_int_of_a_negative_number_is_twos_complement() {
    // -10^18 = 2^192 - 10^18
    assert_eq!(
        Decimal::from_int(-1),
        Decimal { lo: u64::MAX - 1_000_000_000_000_000_000 + 1, mid: u64::MAX, hi: u64::MAX }
    );
}

#[test]
fn from_int_agrees_with_scrypto() {
    for v in [0i64, 1, -1, 42, i64::MAX, i64::MIN] {
        let d = scrypto::math::Decimal::from(v).attos().to_digits();
        assert_eq!(Decimal::from_int(v), Decimal { lo: d[0], mid: d[1], hi: d[2] });
    }
}

#[test]
fn checked_add_adds() {
    assert_eq!(Decimal::from_int(2).checked_add(Decimal::from_int(3)), Some(Decimal::from_int(5)));
    assert_eq!(Decimal::from_int(2).checked_add(Decimal::from_int(-3)), Some(Decimal::from_int(-1)));
    assert_eq!(attos(u64::MAX).checked_add(attos(1)), Some(Decimal { lo: 0, mid: 1, hi: 0 }));
}

#[test]
fn checked_add_overflows_past_the_largest_amount() {
    assert_eq!(MAX.checked_add(attos(1)), None);
    assert_eq!(MAX.checked_add(Decimal::zero()), Some(MAX));
    assert_eq!(MIN.checked_add(Decimal::from_int(-1)), None);
}

#[test]
fn checked_sub_subtracts() {
    assert_eq!(Decimal::from_int(5).checked_sub(Decimal::from_int(3)), Some(Decimal::from_int(2)));
    assert_eq!(Decimal::from_int(3).checked_sub(Decimal::from_int(5)), Some(Decimal::from_int(-2)));
    assert_eq!(Decimal { lo: 0, mid: 1, hi: 0 }.checked_sub(attos(1)), Some(attos(u64::MAX)));
}

#[test]
fn checked_sub_overflows_below_the_smallest_amount() {
    assert_eq!(MIN.checked_sub(attos(1)), None);
    assert_eq!(Decimal::zero().checked_sub(MIN), None);
    assert_eq!(Decimal::from_int(-1).checked_sub(MAX), None);
    assert_eq!(attos(0).checked_sub(MAX), Some(MIN.checked_add(attos(1)).unwrap()));
}

#[test]
fn checked_mul_multiplies_and_truncates_toward_zero() {
    assert_eq!(Decimal::from_int(7).checked_mul(Decimal::from_int(100)), Some(Decimal::from_int(700)));
    // 0.000000000000000003 * 0.5 = 0.0000000000000000015 -> 0.000000000000000001
    assert_eq!(attos(3).checked_mul(attos(500_000_000_000_000_000)), Some(attos(1)));
    // the same below zero rounds up to -0.000000000000000001
    let minus_three = Decimal::zero().checked_sub(attos(3)).unwrap();
    let minus_one = Decimal::zero().checked_sub(attos(1)).unwrap();
    assert_eq!(minus_three.checked_mul(attos(500_000_000_000_000_000)), Some(minus_one));
    assert_eq!(attos(1).checked_mul(attos(1)), Some(Decimal::zero()));
}

#[test]
fn checked_mul_overflows() {
    assert_eq!(MAX.checked_mul(Decimal::from_int(2)), None);
    assert_eq!(MAX.checked_mul(Decimal::from_int(1)), Some(MAX));
}

#[test]
fn checked_mul_never_yields_the_smallest_amount() {
    assert_eq!(MIN.checked_mul(Decimal::from_int(1)), None);
    let above_min = MIN.checked_add(attos(1)).unwrap();
    assert_eq!(above_min.checked_mul(Decimal::from_int(1)), Some(above_min));
}

#[test]
fn checked_div_divides_and_truncates_toward_zero() {
    assert_eq!(Decimal::from_int(700).checked_div(Decimal::from_int(100)), Some(Decimal::from_int(7)));
    assert_eq!(Decimal::from_int(1).checked_div(Decimal::from_int(3)), Some(attos(333_333_333_333_333_333)));
    assert_eq!(Decimal::from_int(2).checked_div(Decimal::from_int(3)), Some(attos(666_666_666_666_666_666)));
    let minus_third = Decimal::zero().checked_sub(attos(333_333_333_333_333_333)).unwrap();
    assert_eq!(Decimal::from_int(-1).checked_div(Decimal::from_int(3)), Some(minus_third));
    assert_eq!(Decimal::from_int(1).checked_div(Decimal::from_int(-3)), Some(minus_third));
}

#[test]
fn checked_div_by_zero_is_none() {
    assert_eq!(Decimal::from_int(1).checked_div(Decimal::zero()), None);
    assert_eq!(Decimal::zero().checked_div(Decimal::zero()), None);
}

#[test]
fn checked_div_overflows() {
    assert_eq!(MAX.checked_div(attos(1)), None);
    assert_eq!(MIN.checked_div(Decimal::from_int(1)), None);
}

#[test]
fn lt_orders_by_value() {
    assert!(Decimal::from_int(1).lt(Decimal::from_int(2)));
    assert!(!Decimal::from_int(2).lt(Decimal::from_int(1)));
    assert!(!Decimal::from_int(2).lt(Decimal::from_int(2)));
    assert!(Decimal::from_int(-1).lt(Decimal::zero()));
    assert!(MIN.lt(MAX));
    assert!(!MAX.lt(MIN));
    assert!(attos(u64::MAX).lt(Decimal { lo: 0, mid: 1, hi: 0 }));
}

#[test]
fn sign_tests() {
    assert!(Decimal::from_int(1).is_positive());
    assert!(!Decimal::zero().is_positive());
    assert!(!Decimal::from_int(-1).is_positive());
    assert!(Decimal::from_int(-1).is_negative());
    assert!(!Decimal::zero().is_negative());
    assert!(!Decimal::from_int(1).is_negative());
}

#[test]
fn add_days_adds_whole_days() {
    assert_eq!(Instant::new(1_000).add_days(7), Some(Instant::new(1_000 + 7 * 86_400)));
    assert_eq!(Instant::new(1_000).add_days(0), Some(Instant::new(1_000)));
    assert_eq!(Instant::new(1_000).add_days(-1), Some(Instant::new(1_000 - 86_400)));
}

#[test]
fn add_days_overflows() {
    assert_eq!(Instant::new(0).add_days(i64::MAX), None);
    assert_eq!(Instant::new(i64::MAX).add_days(1), None);
    assert_eq!(Instant::new(i64::MIN).add_days(-1), None);
    // the span alone must fit, even where the sum would
    assert_eq!(Instant::new(-86_400 * 2).add_days(i64::MAX / 86_400 + 1), None);
    assert_eq!(Instant::new(0).add_days(i64::MAX / 86_400), Some(Instant::new(i64::MAX / 86_400 * 86_400)));
}

#[test]
fn is_at_or_after_compares_seconds() {
    assert!(Instant::new(5).is_at_or_after(Instant::new(5)));
    assert!(Instant::new(6).is_at_or_after(Instant::new(5)));
    assert!(!Instant::new(4).is_at_or_after(Instant::new(5)));
}

#[test]
fn floor_to_minute_rounds_down() {
    assert_eq!(Instant::new(0).floor_to_minute(), Some(Instant::new(0)));
    assert_eq!(Instant::new(59).floor_to_minute(), Some(Instant::new(0)));
    assert_eq!(Instant::new(60).floor_to_minute(), Some(Instant::new(60)));
    assert_eq!(Instant::new(1_700_000_030).floor_to_minute(), Some(Instant::new(1_699_999_980)));
    assert_eq!(Instant::new(-1).floor_to_minute(), Some(Instant::new(-60)));
    assert_eq!(Instant::new(-60).floor_to_minute(), Some(Instant::new(-60)));
    assert_eq!(Instant::new(-61).floor_to_minute(), Some(Instant::new(-120)));
    assert_eq!(Instant::new(i64::MAX).floor_to_minute(), Some(Instant::new(i64::MAX - 7)));
}

#[test]
fn floor_to_minute_of_the_first_seconds_there_are_is_none() {
    // the first whole minute is 8 seconds after the first instant
    assert_eq!(Instant::new(i64::MIN).floor_to_minute(), None);
    assert_eq!(Instant::new(i64::MIN + 7).floor_to_minute(), None);
    assert_eq!(
        Instant::new(i64::MIN + 8).floor_to_minute(),
        Some(Instant::new(i64::MIN + 8))
    );
    assert_eq!(
        Instant::new(i64::MIN + 67).floor_to_minute(),
        Some(Instant::new(i64::MIN + 8))
    );
}
