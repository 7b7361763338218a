//! The sequence composition filter: admits one canonical ordering of epsilon
//! moves so that the composition holds no duplicate paths.
use vstd::prelude::*;
use crate::fst::{EPS_LABEL, FstView, Label, StateId, VectorFst};
use crate::semiring::Semiring;
use crate::state_table::FilterState;

verus! {

/// Every transition of state `s1` of `a` has an epsilon output and `s1` is not final.
pub open spec fn all_output_eps<W: Semiring>(a: FstView<W>, s1: int) -> bool {
    &&& forall|i: int| 0 <= i < a.trs[s1].len() ==> (#[trigger] a.trs[s1][i]).olabel == EPS_LABEL
    &&& a.finals[s1] == W::zero_spec()
}

/// No transition of state `s1` of `a` has an epsilon output.
pub open spec fn no_output_eps<W: Semiring>(a: FstView<W>, s1: int) -> bool {
    forall|i: int| 0 <= i < a.trs[s1].len() ==> (#[trigger] a.trs[s1][i]).olabel != EPS_LABEL
}

/// Decision of the sequence filter at composite state `(s1, _, fs)` on a pair
/// of moves. `l1` is the output label of the first FST's transition, `None`
/// when it stays; `l2` the input label of the second's, `None` when it stays.
/// The result is the filter state after the pair, `None` when it is refused.
pub open spec fn seq_filter<W: Semiring>(
    a: FstView<W>,
    s1: int,
    fs: FilterState,
    l1: Option<Label>,
    l2: Option<Label>,
) -> Option<FilterState> {
    match (l1, l2) {
        (None, _) => if all_output_eps(a, s1) {
            None
        } else if no_output_eps(a, s1) {
            Some(FilterState::NoMatch)
        } else {
            Some(FilterState::EpsB)
        },
        (Some(_), None) => if fs == FilterState::NoMatch {
            Some(FilterState::NoMatch)
        } else {
            None
        },
        (Some(x), Some(_)) => if x == EPS_LABEL {
            None
        } else {
            Some(FilterState::NoMatch)
        },
    }
}

pub struct SequenceComposeFilter {
    s1: StateId,
    fs: FilterState,
    alleps1: bool,
    noeps1: bool,
}

impl SequenceComposeFilter {
    /// The filter state it was last set to.
    pub closed spec fn start_state(&self) -> FilterState {
        self.fs
    }

    /// The filter at the state `s1` of `a` with filter state `fs`.
    pub closed spec fn at<W: Semiring>(&self, a: FstView<W>, s1: int, fs: FilterState) -> bool {
        &&& self.s1 == s1
        &&& self.fs == fs
        &&& self.alleps1 == all_output_eps(a, s1)
        &&& self.noeps1 == no_output_eps(a, s1)
    }

    /// A filter at state 0 of no FST, in filter state `NoMatch`; `set_state`
    /// prepares it for a real state.
    pub fn new() -> (r: Self)
        ensures
            r.start_state() == FilterState::NoMatch,
    {
        SequenceComposeFilter { s1: 0, fs: FilterState::NoMatch, alleps1: false, noeps1: false }
    }

    /// The filter state at the composite initial state.
    pub fn start(&self) -> (r: FilterState)
        ensures
            r == FilterState::NoMatch,
    {
        FilterState::NoMatch
    }

    /// Prepares the filter for the pairs leaving composite state `(s1, s2, fs)`.
    pub fn set_state<W: Semiring>(&mut self, fst1: &VectorFst<W>, s1: StateId, s2: StateId, fs: FilterState)
        requires
            fst1@.wf(),
            s1 < fst1@.num_states(),
        ensures
            final(self).at(fst1@, s1 as int, fs),
    {
        let trs = fst1.get_trs(s1).unwrap();
        let mut neps: usize = 0;
        let mut i: usize = 0;
        while i < trs.len()
            invariant
                0 <= i <= trs.len(),
                neps <= i,
                (neps == i) == (forall|j: int| 0 <= j < i ==> (#[trigger] trs@[j]).olabel == EPS_LABEL),
                (neps == 0) == (forall|j: int| 0 <= j < i ==> (#[trigger] trs@[j]).olabel != EPS_LABEL),
            decreases trs.len() - i,
        {
            if trs[i].olabel == EPS_LABEL {
                neps = neps + 1;
            }
            i = i + 1;
        }
        let fin = fst1.final_weight(s1).unwrap();
        self.s1 = s1;
        self.fs = fs;
        self.alleps1 = neps == trs.len() && fin.is_zero();
        self.noeps1 = neps == 0;
    }

    /// Admits or refuses a pair of moves (see `seq_filter`).
    pub fn filter_tr<W: Semiring>(&self, l1: Option<Label>, l2: Option<Label>) -> (r: Option<FilterState>)
        ensures
            forall|a: FstView<W>, s1: int, fs: FilterState|
                self.at(a, s1, fs) ==> r == seq_filter(a, s1, fs, l1, l2),
    {
        match l1 {
            None => if self.alleps1 {
                None
            } else if self.noeps1 {
                Some(FilterState::NoMatch)
            } else {
                Some(FilterState::EpsB)
            },
            Some(x) => match l2 {
                None => if self.fs == FilterState::NoMatch {
                    Some(FilterState::NoMatch)
                } else {
                    None
                },
                Some(_) => if x == EPS_LABEL {
                    None
                } else {
                    Some(FilterState::NoMatch)
                },
            },
        }
    }
}

} // verus!
