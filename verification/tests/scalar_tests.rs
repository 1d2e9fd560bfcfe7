use orbital::scalar::Scalar;

fn s(x: f64) -> Scalar {
    Scalar::from_bits(x.to_bits())
}

#[test]
fn gt_orders_as_doubles_do() {
    let samples = [
        0.0,
        -0.0,
        1.0,
        -1.0,
        1.5,
        -1.5,
        5e-324,
        -5e-324,
        1.989e30,
        5.972e24,
        f64::MAX,
        f64::MIN,
        f64::INFINITY,
        f64::NEG_INFINITY,
        f64::NAN,
    ];
    for a in samples {
        for b in samples {
            assert_eq!(s(a).gt(s(b)), a > b);
        }
    }
}

#[test]
fn bits_pass_through_unchanged() {
    assert_eq!(s(6.6674e-11).to_bits(), 6.6674e-11f64.to_bits());
    assert_eq!(f64::from_bits(Scalar::zero().to_bits()), 0.0);
    assert!(f64::from_bits(Scalar::zero().to_bits()).is_sign_positive());
    assert_eq!(f64::from_bits(Scalar::one().to_bits()), 1.0);
    assert_eq!(Scalar::from_bits(7), Scalar { bits: 7 });
}

#[test]
fn the_zeros_are_neither_above_nor_below_one_another() {
    assert!(!s(0.0).gt(s(-0.0)));
    assert!(!s(-0.0).gt(s(0.0)));
    assert!(s(5e-324).gt(s(-0.0)));
    assert!(s(0.0).gt(s(-5e-324)));
}

#[test]
fn nothing_is_above_or_below_what_is_not_a_number() {
    assert!(!s(f64::NAN).gt(s(1.)));
    assert!(!s(1.).gt(s(f64::NAN)));
    assert!(!s(f64::INFINITY).gt(s(f64::NAN)));
    assert!(!s(f64::NAN).gt(s(f64::NEG_INFINITY)));
    assert!(!s(-f64::NAN).gt(s(f64::NEG_INFINITY)));
}
