use rustfst::fst::{is_label_sorted, FstError, Tr, VectorFst, EPS_LABEL};
use rustfst::label_reachable::{LabelReachable, LabelReachableData};
use rustfst::semiring::{Semiring, TropicalWeight};

fn chain() -> VectorFst<TropicalWeight> {
    let mut f = VectorFst::new();
    for _ in 0..4 {
        f.add_state();
    }
    f.set_start(0).unwrap();
    f.set_final(3, TropicalWeight::one()).unwrap();
    f.add_tr(0, Tr::new(1, 1, TropicalWeight::one(), 1)).unwrap();
    f.add_tr(1, Tr::new(2, 2, TropicalWeight::one(), 2)).unwrap();
    f.add_tr(2, Tr::new(3, 3, TropicalWeight::one(), 3)).unwrap();
    f
}

#[test]
fn label_reachability_on_chain() {
    let lr = LabelReachable::new(chain(), true).unwrap();
    assert!(lr.reach_input());
    assert_eq!(lr.reach_label(0, 1), Ok(true));
    assert_eq!(lr.reach_label(2, 1), Ok(false));
    assert_eq!(lr.reach_label(2, 3), Ok(true));
    assert_eq!(lr.reach_final(3), Ok(true));
    assert_eq!(lr.reach_final(0), Ok(false));
    assert_eq!(lr.reach_label(0, EPS_LABEL), Ok(false));
    assert_eq!(lr.reach_label(0, 42), Ok(false));
    assert_eq!(lr.reach_label(7, 1), Err(FstError::InvalidState));
    assert_eq!(lr.reach_final(7), Err(FstError::InvalidState));
}

#[test]
fn label_reachability_through_epsilons() {
    // 0 -eps-> 1 -5-> 2 (final); 0 -eps-> 2.
    let mut f = VectorFst::new();
    for _ in 0..3 {
        f.add_state();
    }
    f.set_start(0).unwrap();
    f.set_final(2, TropicalWeight::one()).unwrap();
    f.add_tr(0, Tr::new(0, 0, TropicalWeight::one(), 1)).unwrap();
    f.add_tr(0, Tr::new(0, 0, TropicalWeight::one(), 2)).unwrap();
    f.add_tr(1, Tr::new(5, 5, TropicalWeight::one(), 2)).unwrap();
    let lr = LabelReachable::new(f, false).unwrap();
    assert_eq!(lr.reach_label(0, 5), Ok(true));
    assert_eq!(lr.reach_final(0), Ok(true));
    assert_eq!(lr.reach_final(1), Ok(false));
    assert_eq!(lr.reach_label(2, 5), Ok(false));
}

#[test]
fn reach_init_requires_sorted() {
    let mut lr = LabelReachable::new(chain(), true).unwrap();
    assert_eq!(lr.reach_init(&chain(), true), Ok(()));
    let mut f = VectorFst::new();
    f.add_state();
    f.add_tr(0, Tr::new(4, 1, TropicalWeight::one(), 0)).unwrap();
    f.add_tr(0, Tr::new(2, 3, TropicalWeight::one(), 0)).unwrap();
    assert!(!is_label_sorted(&f, true));
    assert!(is_label_sorted(&f, false));
    assert_eq!(lr.reach_init(&f, true), Err(FstError::NotSorted));
    assert_eq!(lr.reach_init(&f, false), Ok(()));
}

#[test]
fn label_reachable_data_defaults() {
    let d = LabelReachableData::new(false);
    assert_eq!(d.final_label(), usize::MAX);
    assert!(d.interval_set(0).is_err());
}

#[test]
fn transform_counts_label_states() {
    // Two labelled transitions sharing label 7 and one final state: one state
    // for label 7 and one for the final weights.
    let mut f = VectorFst::new();
    for _ in 0..3 {
        f.add_state();
    }
    f.set_final(2, TropicalWeight::one()).unwrap();
    f.add_tr(0, Tr::new(7, 7, TropicalWeight::one(), 1)).unwrap();
    f.add_tr(1, Tr::new(7, 7, TropicalWeight::one(), 2)).unwrap();
    let lr = LabelReachable::new(f, true).unwrap();
    assert_eq!(lr.reach_label(0, 7), Ok(true));
    assert_eq!(lr.reach_label(1, 7), Ok(true));
    assert_eq!(lr.reach_label(2, 7), Ok(false));
    assert_eq!(lr.reach_final(2), Ok(true));
    assert_eq!(lr.reach_final(1), Ok(false));
}
