use dsp_chain::rat::Rat;

#[test]
fn construction_reduces_fractions() {
    let r = Rat::frac(6, 4);
    assert_eq!(r.num(), 3);
    assert_eq!(r.den(), 2);
    assert_eq!(Rat::frac(0, 9), Rat::zero());
    assert_eq!(Rat::frac(5, 0), Rat::invalid());
    assert_eq!(Rat::frac(5, -1), Rat::invalid());
}

#[test]
fn addition_is_exact_and_reduced() {
    let a = Rat::frac(1, 6);
    let b = Rat::frac(1, 3);
    let s = a.plus(b);
    assert_eq!(s.num(), 1);
    assert_eq!(s.den(), 2);
    assert_eq!(Rat::from_int(2).plus(Rat::from_int(3)), Rat::from_int(5));
    assert_eq!(Rat::frac(-1, 2).plus(Rat::frac(1, 2)), Rat::zero());
}

#[test]
fn multiplication_and_division_are_exact() {
    assert_eq!(Rat::frac(2, 3).times(Rat::frac(3, 4)), Rat::frac(1, 2));
    assert_eq!(Rat::frac(5, 2).divided_by(Rat::frac(5, 4)), Rat::from_int(2));
    assert_eq!(Rat::frac(1, 2).divided_by(Rat::frac(-1, 4).plus(Rat::frac(-1, 4))), Rat::from_int(-1));
}

#[test]
fn invalid_values_absorb() {
    let nan = Rat::invalid();
    assert_eq!(nan.plus(Rat::from_int(1)), nan);
    assert_eq!(Rat::from_int(1).times(nan), nan);
    assert_eq!(Rat::from_int(1).divided_by(Rat::zero()), nan);
    assert!(!nan.is_finite());
    assert!(Rat::zero().is_finite());
}

#[test]
fn order_is_by_value_with_invalid_last() {
    assert!(Rat::frac(1, 3).le(Rat::frac(1, 2)));
    assert!(!Rat::frac(1, 2).le(Rat::frac(1, 3)));
    assert!(Rat::frac(2, 4).le(Rat::frac(1, 2)));
    assert!(Rat::from_int(-5).le(Rat::zero()));
    assert!(Rat::from_int(1000).le(Rat::invalid()));
    assert!(!Rat::invalid().le(Rat::from_int(1000)));
    assert!(Rat::invalid().le(Rat::invalid()));
}

#[test]
fn value_equality_ignores_representation() {
    assert!(Rat::frac(2, 4).eq_val(Rat::frac(1, 2)));
    assert!(!Rat::frac(2, 4).eq_val(Rat::frac(2, 3)));
    assert!(Rat::invalid().eq_val(Rat::invalid()));
    assert!(!Rat::invalid().eq_val(Rat::zero()));
}

#[test]
fn display_forms() {
    assert_eq!(Rat::from_int(2).to_display(), "2");
    assert_eq!(Rat::from_int(0).to_display(), "0");
    assert_eq!(Rat::frac(3, 2).to_display(), "3/2");
    assert_eq!(Rat::frac(-1, 2).to_display(), "-1/2");
    assert_eq!(Rat::from_int(1234).to_display(), "1234");
    assert_eq!(Rat::from_int(-107).to_display(), "-107");
    assert_eq!(Rat::invalid().to_display(), "NaN");
}
