use rustfst::converter::{weight_convert, SimpleWeightConverter};
use rustfst::fst::{FstError, Tr, VectorFst};
use rustfst::mapper::{
    tr_map, IdentityMapper, InputEpsilonMapper, InvertMapper, OutputEpsilonMapper, QuantizeMapper, TimesMapper,
};
use rustfst::semiring::{ProbabilityWeight, Semiring, TropicalWeight, INFINITY};

fn sample() -> VectorFst<TropicalWeight> {
    let mut f = VectorFst::new();
    f.add_state();
    f.add_state();
    f.add_state();
    f.set_start(0).unwrap();
    f.set_final(2, TropicalWeight::new(15000)).unwrap();
    f.add_tr(0, Tr::new(1, 2, TropicalWeight::new(10001), 1)).unwrap();
    f.add_tr(0, Tr::new(3, 0, TropicalWeight::new(10002), 2)).unwrap();
    f.add_tr(1, Tr::new(0, 4, TropicalWeight::new(-25), 2)).unwrap();
    f
}

fn same(a: &VectorFst<TropicalWeight>, b: &VectorFst<TropicalWeight>) -> bool {
    if a.num_states() != b.num_states() || a.start() != b.start() {
        return false;
    }
    for s in 0..a.num_states() {
        if a.final_weight(s).unwrap() != b.final_weight(s).unwrap() {
            return false;
        }
        if a.get_trs(s).unwrap() != b.get_trs(s).unwrap() {
            return false;
        }
    }
    true
}

#[test]
fn identity_mapper_keeps_fst() {
    let mut f = sample();
    tr_map(&mut f, &IdentityMapper {}).unwrap();
    assert!(same(&f, &sample()));
}

#[test]
fn quantize_mapper_rounds_weights() {
    let mut f = sample();
    tr_map(&mut f, &QuantizeMapper::with_delta(10)).unwrap();
    let trs = f.get_trs(0).unwrap();
    assert_eq!(trs[0].weight, TropicalWeight::new(10000));
    assert_eq!(trs[1].weight, TropicalWeight::new(10000));
    assert_eq!(f.get_trs(1).unwrap()[0].weight, TropicalWeight::new(-20));
    assert_eq!(f.final_weight(2).unwrap(), TropicalWeight::new(15000));
    // Non-final states keep the zero weight (+infinity).
    assert_eq!(f.final_weight(0).unwrap(), TropicalWeight::new(INFINITY));
}

#[test]
fn quantize_default_step() {
    let mut f = sample();
    tr_map(&mut f, &QuantizeMapper::new()).unwrap();
    assert_eq!(f.get_trs(0).unwrap()[1].weight, TropicalWeight::new(10000));
}

#[test]
fn quantize_twice_equals_once() {
    let mut once = sample();
    tr_map(&mut once, &QuantizeMapper::with_delta(7)).unwrap();
    let mut twice = sample();
    tr_map(&mut twice, &QuantizeMapper::with_delta(7)).unwrap();
    tr_map(&mut twice, &QuantizeMapper::with_delta(7)).unwrap();
    assert!(same(&once, &twice));
}

#[test]
fn times_mapper_halves_probabilities() {
    let mut f = VectorFst::new();
    f.add_state();
    f.add_state();
    f.set_start(0).unwrap();
    f.set_final(0, ProbabilityWeight::new(20000)).unwrap();
    f.set_final(1, ProbabilityWeight::new(30000)).unwrap();
    f.add_tr(0, Tr::new(1, 1, ProbabilityWeight::new(8000), 1)).unwrap();
    f.add_tr(1, Tr::new(2, 2, ProbabilityWeight::new(40000), 0)).unwrap();
    tr_map(&mut f, &TimesMapper::new(5000)).unwrap();
    assert_eq!(f.final_weight(0).unwrap(), ProbabilityWeight::new(10000));
    assert_eq!(f.final_weight(1).unwrap(), ProbabilityWeight::new(15000));
    assert_eq!(f.get_trs(0).unwrap()[0].weight, ProbabilityWeight::new(4000));
    assert_eq!(f.get_trs(1).unwrap()[0].weight, ProbabilityWeight::new(20000));
}

#[test]
fn times_mapper_tropical_adds() {
    let mut f = sample();
    tr_map(&mut f, &TimesMapper::from_weight(TropicalWeight::new(5))).unwrap();
    assert_eq!(f.get_trs(0).unwrap()[0].weight, TropicalWeight::new(10006));
    assert_eq!(f.final_weight(2).unwrap(), TropicalWeight::new(15005));
    assert_eq!(f.final_weight(0).unwrap(), TropicalWeight::new(INFINITY));
}

#[test]
fn times_mapper_map_weight() {
    let m = TimesMapper::new(3);
    let mut x = TropicalWeight::new(4);
    m.map_weight(&mut x).unwrap();
    assert_eq!(x, TropicalWeight::new(7));
}

#[test]
fn tr_map_error_leaves_fst_unchanged() {
    let mut f = sample();
    let r = tr_map(&mut f, &TimesMapper::from_weight(TropicalWeight::new(i64::MAX - 1)));
    assert_eq!(r, Err(FstError::SemiringOverflow));
    assert!(same(&f, &sample()));
}

#[test]
fn invert_and_epsilon_mappers() {
    let mut f = sample();
    tr_map(&mut f, &InvertMapper {}).unwrap();
    let t = f.get_trs(0).unwrap()[0];
    assert_eq!((t.ilabel, t.olabel), (2, 1));
    let mut g = sample();
    tr_map(&mut g, &InputEpsilonMapper {}).unwrap();
    assert_eq!(g.get_trs(0).unwrap()[0].ilabel, 0);
    assert_eq!(g.get_trs(0).unwrap()[0].olabel, 2);
    let mut h = sample();
    tr_map(&mut h, &OutputEpsilonMapper {}).unwrap();
    assert_eq!(h.get_trs(0).unwrap()[0].olabel, 0);
    assert_eq!(h.get_trs(0).unwrap()[0].ilabel, 1);
}

#[test]
fn simple_weight_converter_keeps_values() {
    let f = sample();
    let g: VectorFst<ProbabilityWeight> = weight_convert(&f, &SimpleWeightConverter {}).unwrap();
    assert_eq!(g.num_states(), 3);
    assert_eq!(g.start(), Some(0));
    assert_eq!(g.final_weight(2).unwrap(), ProbabilityWeight::new(15000));
    let t = g.get_trs(0).unwrap()[1];
    assert_eq!(t, Tr::new(3, 0, ProbabilityWeight::new(10002), 2));
}

#[test]
fn quantize_map_weight_default_step() {
    let mut x = TropicalWeight::new(12346);
    rustfst::mapper::map_weight(&mut x).unwrap();
    assert_eq!(x, TropicalWeight::new(12350));
    let mut big = TropicalWeight::new(i64::MAX - 1);
    assert_eq!(rustfst::mapper::map_weight(&mut big), Err(FstError::SemiringOverflow));
    assert_eq!(big, TropicalWeight::new(i64::MAX - 1));
}
