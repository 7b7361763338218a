use std::sync::Arc;

use rustfst::compose::{ComposeFst, ComposeFstOpOptions};
use rustfst::fst::{FstError, Tr, VectorFst};
use rustfst::semiring::{Semiring, TropicalWeight};
use rustfst::state_table::{ComposeStateTuple, FilterState, StateTable};

fn w(v: i64) -> TropicalWeight {
    TropicalWeight::new(v)
}

/// One state, start and final with weight 0, and a self-loop labelled `l`.
fn single_loop(l: usize) -> VectorFst<TropicalWeight> {
    let mut f = VectorFst::new();
    let s = f.add_state();
    f.set_start(s).unwrap();
    f.set_final(s, w(0)).unwrap();
    f.add_tr(s, Tr::new(l, l, w(10000), s)).unwrap();
    f
}

/// A chain of `n` states `0 -> 1 -> ...` whose i-th transition carries `labels[i]`.
fn chain(n: usize, labels: &[usize]) -> VectorFst<TropicalWeight> {
    let mut f = VectorFst::new();
    for _ in 0..n {
        f.add_state();
    }
    f.set_start(0).unwrap();
    f.set_final(n - 1, w(0)).unwrap();
    for (i, l) in labels.iter().enumerate() {
        f.add_tr(i, Tr::new(*l, *l, w(10000), i + 1)).unwrap();
    }
    f
}

#[test]
fn compose_empty_intersection() {
    let a = single_loop(1);
    let b = single_loop(2);
    let mut c = ComposeFst::new(Arc::new(a), Arc::new(b)).unwrap();
    let out = c.compute().unwrap();
    assert_eq!(out.num_states(), 1);
    assert_eq!(out.start(), Some(0));
    assert_eq!(out.final_weight(0).unwrap(), w(0));
    assert_eq!(out.get_trs(0).unwrap().len(), 0);
}

#[test]
fn compose_epsilon_both_sides_single_path() {
    let mut a = VectorFst::new();
    a.add_state();
    a.add_state();
    a.set_start(0).unwrap();
    a.set_final(1, w(0)).unwrap();
    a.add_tr(0, Tr::new(0, 1, w(10000), 1)).unwrap();
    a.add_tr(0, Tr::new(0, 2, w(10000), 1)).unwrap();
    let mut b = VectorFst::new();
    b.add_state();
    b.add_state();
    b.set_start(0).unwrap();
    b.set_final(1, w(0)).unwrap();
    b.add_tr(0, Tr::new(1, 0, w(10000), 1)).unwrap();

    let mut c = ComposeFst::new(Arc::new(a), Arc::new(b)).unwrap();
    let out = c.compute().unwrap();
    let s0 = out.start().unwrap();
    let trs = out.get_trs(s0).unwrap();
    assert_eq!(trs.len(), 1);
    assert_eq!(trs[0].ilabel, 0);
    assert_eq!(trs[0].olabel, 0);
    assert_eq!(trs[0].weight, w(20000));
    let f = trs[0].nextstate;
    assert_eq!(out.final_weight(f).unwrap(), w(0));
    assert_eq!(out.get_trs(f).unwrap().len(), 0);
    // Exactly one path from the start to a final state.
    let mut paths = 0;
    for t in out.get_trs(s0).unwrap() {
        if !out.final_weight(t.nextstate).unwrap().is_zero() {
            paths += 1;
        }
    }
    assert_eq!(paths, 1);
}

#[test]
fn compose_epsilons_sequence_filter_no_duplicates() {
    // A: 0 -x:eps-> 1 (output epsilon); B: 0 -eps:y-> 1 (input epsilon).
    // Both orders of the two moves reach (1, 1); the filter admits one.
    let mut a = VectorFst::new();
    a.add_state();
    a.add_state();
    a.set_start(0).unwrap();
    a.set_final(1, w(0)).unwrap();
    a.add_tr(0, Tr::new(5, 0, w(10000), 1)).unwrap();
    let mut b = VectorFst::new();
    b.add_state();
    b.add_state();
    b.set_start(0).unwrap();
    b.set_final(1, w(0)).unwrap();
    b.add_tr(0, Tr::new(0, 7, w(10000), 1)).unwrap();

    let mut c = ComposeFst::new(Arc::new(a), Arc::new(b)).unwrap();
    let out = c.compute().unwrap();
    // Count the paths from the start to final states (the machine is acyclic).
    fn count(out: &VectorFst<TropicalWeight>, s: usize) -> usize {
        let mut n = if out.final_weight(s).unwrap().is_zero() { 0 } else { 1 };
        for t in out.get_trs(s).unwrap() {
            n += count(out, t.nextstate);
        }
        n
    }
    assert_eq!(count(&out, out.start().unwrap()), 1);
}

#[test]
fn compose_lazy_expansion_count() {
    let a = chain(10, &[1, 2, 3, 4, 5, 6, 7, 8, 9]);
    let b = chain(10, &[1, 2, 3, 4, 5, 6, 100, 101, 102]);
    let mut c = ComposeFst::new(
        Arc::new(chain(10, &[1, 2, 3, 4, 5, 6, 7, 8, 9])),
        Arc::new(chain(10, &[1, 2, 3, 4, 5, 6, 100, 101, 102])),
    )
    .unwrap();
    let s = c.start().unwrap().unwrap();
    let trs = c.get_trs(s).unwrap();
    assert_eq!(trs.len(), 1);
    let n = c.num_known_states();
    assert!(n >= 2 && n <= 8);
    assert_ne!(n, 100);
    for t in &trs {
        assert!(t.nextstate < n);
    }

    let mut full = ComposeFst::new(Arc::new(a), Arc::new(b)).unwrap();
    let out = full.compute().unwrap();
    assert_eq!(out.num_states(), 7);
}

#[test]
fn compose_ids_below_expanded_count() {
    let a = chain(4, &[1, 2, 3]);
    let b = chain(4, &[1, 2, 3]);
    let mut c = ComposeFst::new_auto(Arc::new(a), Arc::new(b)).unwrap();
    let s = c.start().unwrap().unwrap();
    assert!(s < c.num_known_states());
    let mut q = s;
    loop {
        let trs = c.get_trs(q).unwrap();
        for t in &trs {
            assert!(t.nextstate < c.num_known_states());
        }
        if trs.is_empty() {
            break;
        }
        q = trs[0].nextstate;
    }
    assert_eq!(c.final_weight(q).unwrap(), w(0));
    assert_eq!(c.get_trs(1000).unwrap_err(), FstError::InvalidState);
}

#[test]
fn compose_repeated_queries_agree() {
    let a = chain(3, &[1, 2]);
    let b = chain(3, &[1, 2]);
    let mut c = ComposeFst::new(Arc::new(a), Arc::new(b)).unwrap();
    let s = c.start().unwrap().unwrap();
    let first = c.get_trs(s).unwrap();
    let second = c.get_trs(s).unwrap();
    assert_eq!(first, second);
    assert_eq!(c.start().unwrap(), Some(s));
}

#[test]
fn compose_weights_multiply() {
    let mut a = VectorFst::new();
    a.add_state();
    a.add_state();
    a.set_start(0).unwrap();
    a.set_final(1, w(5000)).unwrap();
    a.add_tr(0, Tr::new(1, 2, w(15000), 1)).unwrap();
    let mut b = VectorFst::new();
    b.add_state();
    b.add_state();
    b.set_start(0).unwrap();
    b.set_final(1, w(2500)).unwrap();
    b.add_tr(0, Tr::new(2, 3, w(25000), 1)).unwrap();
    let mut c = ComposeFst::new(Arc::new(a), Arc::new(b)).unwrap();
    let out = c.compute().unwrap();
    let trs = out.get_trs(0).unwrap();
    assert_eq!(trs.len(), 1);
    assert_eq!((trs[0].ilabel, trs[0].olabel), (1, 3));
    assert_eq!(trs[0].weight, w(40000));
    assert_eq!(out.final_weight(trs[0].nextstate).unwrap(), w(7500));
}

#[test]
fn compose_without_start_is_empty() {
    let mut a = VectorFst::<TropicalWeight>::new();
    a.add_state();
    let b = single_loop(1);
    let mut c = ComposeFst::new(Arc::new(a), Arc::new(b)).unwrap();
    assert_eq!(c.start().unwrap(), None);
    let out = c.compute().unwrap();
    assert_eq!(out.num_states(), 0);
    assert_eq!(out.start(), None);
}

#[test]
fn compose_overflow_is_reported_and_kept() {
    let mut a = VectorFst::new();
    a.add_state();
    a.set_start(0).unwrap();
    a.add_tr(0, Tr::new(1, 1, w(i64::MAX - 1), 0)).unwrap();
    let mut b = VectorFst::new();
    b.add_state();
    b.set_start(0).unwrap();
    b.add_tr(0, Tr::new(1, 1, w(10), 0)).unwrap();
    let mut c = ComposeFst::new(Arc::new(a), Arc::new(b)).unwrap();
    let s = c.start().unwrap().unwrap();
    assert_eq!(c.get_trs(s).unwrap_err(), FstError::SemiringOverflow);
    assert_eq!(c.get_trs(s).unwrap_err(), FstError::SemiringOverflow);
    assert!(c.compute().is_err());
}

#[test]
fn compose_options_with_bad_table() {
    let a = single_loop(1);
    let b = single_loop(1);
    let mut table = StateTable::new();
    table.find_or_insert(ComposeStateTuple { s1: 5, s2: 0, fs: FilterState::NoMatch });
    let r = ComposeFst::new_with_options(Arc::new(a), Arc::new(b), ComposeFstOpOptions { state_table: table });
    assert!(matches!(r, Err(FstError::InvalidState)));
}

#[test]
fn compose_compute_twice_agrees_and_is_reachable() {
    let mut c = ComposeFst::new(Arc::new(chain(5, &[1, 2, 3, 4])), Arc::new(chain(5, &[1, 2, 3, 4]))).unwrap();
    let first = c.compute().unwrap();
    let second = c.compute().unwrap();
    assert_eq!(first.num_states(), second.num_states());
    assert_eq!(first.start(), second.start());
    for s in 0..first.num_states() {
        assert_eq!(first.get_trs(s).unwrap(), second.get_trs(s).unwrap());
        assert_eq!(first.final_weight(s).unwrap(), second.final_weight(s).unwrap());
    }
    // Every state is reached from the start.
    let mut seen = vec![false; first.num_states()];
    let mut stack = vec![first.start().unwrap()];
    while let Some(s) = stack.pop() {
        if seen[s] {
            continue;
        }
        seen[s] = true;
        for t in first.get_trs(s).unwrap() {
            stack.push(t.nextstate);
        }
    }
    assert!(seen.iter().all(|b| *b));
}

#[test]
fn compose_final_weight_out_of_range_keeps_failing() {
    let mut c = ComposeFst::new(Arc::new(chain(3, &[1, 2])), Arc::new(chain(3, &[1, 2]))).unwrap();
    c.start().unwrap();
    assert_eq!(c.final_weight(5).unwrap_err(), FstError::InvalidState);
    assert_eq!(c.final_weight(5).unwrap_err(), FstError::InvalidState);
    assert_eq!(c.num_known_states(), 1);
}
