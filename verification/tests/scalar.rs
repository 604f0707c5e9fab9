use parley::scalar::{Fixed, Scalar};

fn steps(steps: i64) -> Fixed {
    Fixed { steps }
}

#[test]
fn fixed_units_have_64_steps() {
    assert_eq!(Fixed::from_units(2), steps(128));
    assert_eq!(Fixed::from_units(-3), steps(-192));
    assert_eq!(Fixed::one(), steps(64));
    assert_eq!(Fixed::zero(), steps(0));
}

#[test]
fn fixed_sums_saturate() {
    assert_eq!(steps(5).plus(steps(7)), steps(12));
    assert_eq!(steps(5).minus(steps(7)), steps(-2));
    assert_eq!(Fixed::largest().plus(steps(1)), Fixed::largest());
    assert_eq!(steps(i64::MIN).minus(steps(1)), steps(i64::MIN));
}

#[test]
fn fixed_products_round_down() {
    assert_eq!(Fixed::from_units(3).times(Fixed::from_units(4)), Fixed::from_units(12));
    assert_eq!(steps(1).times(steps(63)), steps(0));
    assert_eq!(steps(-1).times(steps(63)), steps(-1));
    assert_eq!(Fixed::largest().times(Fixed::from_units(2)), Fixed::largest());
    assert_eq!(steps(i64::MIN).times(steps(i64::MIN)), Fixed::largest());
}

#[test]
fn fixed_halves_round_down() {
    assert_eq!(steps(7).half(), steps(3));
    assert_eq!(steps(-7).half(), steps(-4));
    assert_eq!(steps(i64::MIN).half(), steps(i64::MIN / 2));
}

#[test]
fn fixed_rounding_is_to_whole_units() {
    assert_eq!(steps(96).round(), Fixed::from_units(2));
    assert_eq!(steps(95).round(), Fixed::from_units(1));
    assert_eq!(steps(-96).round(), Fixed::from_units(-2));
    assert_eq!(steps(-95).round(), Fixed::from_units(-1));
    assert_eq!(steps(127).floor(), Fixed::from_units(1));
    assert_eq!(steps(-1).floor(), Fixed::from_units(-1));
    assert_eq!(Fixed::wide_round(steps(96)), Fixed::from_units(2));
}

#[test]
fn fixed_lengths_are_ordered() {
    assert!(steps(1).lt(steps(2)));
    assert!(!steps(2).lt(steps(2)));
    assert!(steps(2).le(steps(2)));
    assert!(steps(2).same(steps(2)));
    assert_eq!(steps(-4).larger(steps(3)), steps(3));
    assert_eq!(steps(4).larger(steps(3)), steps(4));
    assert!(steps(0).nearly_zero());
    assert!(!steps(1).nearly_zero());
    assert_eq!(Fixed::unbounded(), Fixed::largest());
}
