use rustfst::cache::SimpleHashMapCache;
use rustfst::fst::{FstError, Tr};
use rustfst::interval_set::IntervalSet;
use rustfst::semiring::{Semiring, TropicalWeight};
use rustfst::state_table::{ComposeStateTuple, FilterState, StateTable};

#[test]
fn state_table_lookup_after_insert() {
    let mut t = StateTable::new();
    let a = ComposeStateTuple { s1: 3, s2: 4, fs: FilterState::NoMatch };
    let b = ComposeStateTuple { s1: 3, s2: 4, fs: FilterState::EpsB };
    let c = ComposeStateTuple { s1: 0, s2: 9, fs: FilterState::NoMatch };
    let ia = t.find_or_insert(a);
    let ib = t.find_or_insert(b);
    let ic = t.find_or_insert(c);
    assert_eq!((ia, ib, ic), (0, 1, 2));
    assert_eq!(t.find_or_insert(b), 1);
    assert_eq!(t.len(), 3);
    assert_eq!(t.find_tuple(ia), a);
    assert_eq!(t.find_tuple(ib), b);
    assert_eq!(t.find_tuple(ic), c);
}

#[test]
fn cache_slots_written_once() {
    let mut c: SimpleHashMapCache<TropicalWeight> = SimpleHashMapCache::new();
    assert!(c.get_trs(2).is_none());
    let trs = vec![Tr::new(1, 2, TropicalWeight::new(5), 0)];
    c.insert_trs(2, Ok(trs.clone()));
    c.insert_trs(2, Ok(Vec::new()));
    assert_eq!(c.get_trs(2), Some(Ok(trs)));
    c.insert_final_weight(1, Err(FstError::SemiringOverflow));
    c.insert_final_weight(1, Ok(TropicalWeight::one()));
    assert_eq!(c.get_final_weight(1), Some(Err(FstError::SemiringOverflow)));
    c.insert_start(Ok(Some(0)));
    c.insert_start(Ok(None));
    assert_eq!(c.get_start(), Some(Ok(Some(0))));
}

#[test]
fn interval_set_membership() {
    let flags = vec![true, true, false, false, true, false, true, true, true];
    let s = IntervalSet::from_flags(&flags);
    for (i, f) in flags.iter().enumerate() {
        assert_eq!(s.member(i), *f);
    }
    assert!(!s.member(9));
    assert!(!s.member(usize::MAX));
    assert!(!IntervalSet::new().member(0));
}
