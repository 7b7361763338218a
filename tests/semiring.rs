use rustfst::determinize::DeterminizeType;
use rustfst::semiring::{
    quantize_value, ProbabilityWeight, Semiring, SemiringError, StarSemiring, TropicalWeight, WeaklyDivisibleSemiring,
    WeightQuantize, INFINITY, KDELTA, WEIGHT_SCALE,
};

#[test]
fn tropical_operations() {
    let a = TropicalWeight::new(30);
    let b = TropicalWeight::new(12);
    assert_eq!(a.plus(&b), Ok(b));
    assert_eq!(a.times(&b), Ok(TropicalWeight::new(42)));
    assert!(TropicalWeight::zero().is_zero());
    assert!(TropicalWeight::one().is_one());
    assert_eq!(TropicalWeight::zero().value(), INFINITY);
    assert_eq!(a.times(&TropicalWeight::zero()), Ok(TropicalWeight::zero()));
    assert_eq!(a.plus(&TropicalWeight::zero()), Ok(a));
}

#[test]
fn tropical_errors() {
    let big = TropicalWeight::new(i64::MAX - 1);
    assert_eq!(big.times(&TropicalWeight::new(5)), Err(SemiringError::Overflow));
    assert_eq!(TropicalWeight::new(3).divide(&TropicalWeight::zero()), Err(SemiringError::NotDivisible));
    assert_eq!(TropicalWeight::new(-3).closure(), Err(SemiringError::Invalid));
}

#[test]
fn tropical_division_and_closure() {
    assert_eq!(TropicalWeight::new(10).divide(&TropicalWeight::new(4)), Ok(TropicalWeight::new(6)));
    assert_eq!(TropicalWeight::new(10).inverse(), Ok(TropicalWeight::new(-10)));
    assert_eq!(TropicalWeight::new(3).closure(), Ok(TropicalWeight::one()));
}

#[test]
fn probability_operations() {
    let half = ProbabilityWeight::new(WEIGHT_SCALE / 2);
    assert_eq!(half.times(&half), Ok(ProbabilityWeight::new(2500)));
    assert_eq!(half.plus(&half), Ok(ProbabilityWeight::one()));
    assert_eq!(ProbabilityWeight::new(-1).plus(&half), Err(SemiringError::Invalid));
    assert_eq!(ProbabilityWeight::new(i64::MAX).plus(&half), Err(SemiringError::Overflow));
    assert!(ProbabilityWeight::zero().is_zero());
}

#[test]
fn quantize_values() {
    assert_eq!(quantize_value(10001, 10), Some(10000));
    assert_eq!(quantize_value(10005, 10), Some(10010));
    assert_eq!(quantize_value(-15, 10), Some(-10));
    assert_eq!(quantize_value(-16, 10), Some(-20));
    assert_eq!(quantize_value(INFINITY, 10), Some(INFINITY));
    assert_eq!(quantize_value(i64::MAX - 1, 1000), None);
    assert_eq!(KDELTA, 10);
}

#[test]
fn quantize_idempotent_values() {
    for v in [-1234567, -5, 0, 4, 5, 6, 99999, 123456789] {
        let once = TropicalWeight::new(v).quantize(37).unwrap();
        assert_eq!(once.quantize(37).unwrap(), once);
    }
}

#[test]
fn determinize_type_variants() {
    assert_ne!(DeterminizeType::DeterminizeFunctional, DeterminizeType::DeterminizeDisambiguate);
    assert!(DeterminizeType::DeterminizeFunctional < DeterminizeType::DeterminizeNonFunctional);
}
