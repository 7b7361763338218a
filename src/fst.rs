//! Transitions and the concrete mutable FST held in dense vectors.
use vstd::prelude::*;
use crate::semiring::{Semiring, SemiringError};

verus! {

pub type StateId = usize;

pub type Label = usize;

/// The empty label.
pub const EPS_LABEL: Label = 0;

/// Absent label; the special labels below sit just under it, at the top of the
/// label space, so that they never meet a symbol id.
pub const NO_LABEL: Label = usize::MAX;

/// Failure transition label.
pub const PHI_LABEL: Label = usize::MAX - 1;

/// "Any label" transition label.
pub const SIGMA_LABEL: Label = usize::MAX - 2;

/// "Rest of the labels" transition label.
pub const RHO_LABEL: Label = usize::MAX - 3;

/// Errors of FST operations.
#[derive(Clone, Copy, Debug, PartialEq, Eq, Structural)]
pub enum FstError {
    InvalidState,
    NotSorted,
    SemiringOverflow,
    SemiringInvalid,
    NotDivisible,
    MatcherLookupFailed,
    ComposeMismatch,
    /// A mapped final weight needs a super-final state that the mapper does not allow.
    SuperfinalRequired,
}

/// The FST error that stands for a semiring error.
pub open spec fn fst_error_of(e: SemiringError) -> FstError {
    match e {
        SemiringError::Overflow => FstError::SemiringOverflow,
        SemiringError::Invalid => FstError::SemiringInvalid,
        SemiringError::NotDivisible => FstError::NotDivisible,
    }
}

pub fn from_semiring_error(e: SemiringError) -> (r: FstError)
    ensures
        r == fst_error_of(e),
{
    match e {
        SemiringError::Overflow => FstError::SemiringOverflow,
        SemiringError::Invalid => FstError::SemiringInvalid,
        SemiringError::NotDivisible => FstError::NotDivisible,
    }
}

/// A transition `(ilabel, olabel, weight, nextstate)`.
#[derive(Clone, Copy, Debug, PartialEq)]
pub struct Tr<W> {
    pub ilabel: Label,
    pub olabel: Label,
    pub weight: W,
    pub nextstate: StateId,
}

impl<W> Tr<W> {
    pub fn new(ilabel: Label, olabel: Label, weight: W, nextstate: StateId) -> (r: Self)
        ensures
            r == (Tr { ilabel, olabel, weight, nextstate }),
    {
        Tr { ilabel, olabel, weight, nextstate }
    }
}

/// A copy of a sequence of transitions.
pub fn copy_trs<W: Copy>(v: &Vec<Tr<W>>) -> (r: Vec<Tr<W>>)
    ensures
        r@ == v@,
{
    let mut r: Vec<Tr<W>> = Vec::new();
    let mut i: usize = 0;
    while i < v.len()
        invariant
            0 <= i <= v.len(),
            r@ == v@.subrange(0, i as int),
        decreases v.len() - i,
    {
        r.push(v[i]);
        i = i + 1;
        assert(r@ =~= v@.subrange(0, i as int));
    }
    assert(r@ =~= v@);
    r
}

/// The final weight of a state seen as a transition to a virtual super-final state.
#[derive(Clone, Copy, Debug, PartialEq)]
pub struct FinalTr<W> {
    pub ilabel: Label,
    pub olabel: Label,
    pub weight: W,
}

/// Mathematical model of an FST: start state, final weight of each state (zero
/// when not final) and outgoing transitions of each state.
pub struct FstView<W> {
    pub start: Option<StateId>,
    pub finals: Seq<W>,
    pub trs: Seq<Seq<Tr<W>>>,
}

impl<W> FstView<W> {
    pub open spec fn num_states(self) -> nat {
        self.trs.len()
    }

    pub open spec fn has_state(self, s: int) -> bool {
        0 <= s < self.trs.len()
    }

    /// Every state referred to exists.
    pub open spec fn wf(self) -> bool {
        &&& self.finals.len() == self.trs.len()
        &&& (self.start matches Some(s) ==> s < self.trs.len())
        &&& forall|s: int, i: int|
            0 <= s < self.trs.len() && 0 <= i < self.trs[s].len() ==> #[trigger] self.trs[s][i].nextstate
                < self.trs.len()
    }
}

/// An FST whose states are stored in a vector, each with its transitions.
pub struct VectorFst<W> {
    start: Option<StateId>,
    finals: Vec<W>,
    trs: Vec<Vec<Tr<W>>>,
}

impl<W> View for VectorFst<W> {
    type V = FstView<W>;

    closed spec fn view(&self) -> FstView<W> {
        FstView { start: self.start, finals: self.finals@, trs: self.trs@.map_values(|v: Vec<Tr<W>>| v@) }
    }
}

impl<W: Semiring> VectorFst<W> {
    /// An FST without states.
    pub fn new() -> (r: Self)
        ensures
            r@.wf(),
            r@.start is None,
            r@.num_states() == 0,
    {
        let r = VectorFst { start: None, finals: Vec::new(), trs: Vec::new() };
        proof {
            assert(r@.trs =~= Seq::<Seq<Tr<W>>>::empty());
        }
        r
    }

    pub fn num_states(&self) -> (r: usize)
        ensures
            r == self@.num_states(),
    {
        self.trs.len()
    }

    pub fn start(&self) -> (r: Option<StateId>)
        ensures
            r == self@.start,
    {
        self.start
    }

    /// The FST with the given start state and states.
    pub(crate) fn from_parts(start: Option<StateId>, finals: Vec<W>, trs: Vec<Vec<Tr<W>>>) -> (r: Self)
        requires
            (FstView { start, finals: finals@, trs: trs@.map_values(|v: Vec<Tr<W>>| v@) }).wf(),
        ensures
            r@ == (FstView { start, finals: finals@, trs: trs@.map_values(|v: Vec<Tr<W>>| v@) }),
    {
        VectorFst { start, finals, trs }
    }

    /// Replaces the states, keeping the start state.
    pub(crate) fn set_states(&mut self, finals: Vec<W>, trs: Vec<Vec<Tr<W>>>)
        requires
            (FstView { start: old(self)@.start, finals: finals@, trs: trs@.map_values(|v: Vec<Tr<W>>| v@) }).wf(),
        ensures
            final(self)@ == (FstView { start: old(self)@.start, finals: finals@, trs: trs@.map_values(|v: Vec<Tr<W>>| v@) }),
    {
        self.finals = finals;
        self.trs = trs;
    }

    /// Adds non-final states without transitions until there are `n`.
    pub fn add_states_to(&mut self, n: usize)
        requires
            old(self)@.wf(),
            old(self)@.num_states() <= n,
        ensures
            final(self)@.wf(),
            final(self)@.num_states() == n,
            final(self)@.start == old(self)@.start,
            forall|q: int| 0 <= q < old(self)@.num_states() ==> #[trigger] final(self)@.trs[q] == old(self)@.trs[q]
                && final(self)@.finals[q] == old(self)@.finals[q],
            forall|q: int| old(self)@.num_states() <= q < n ==> (#[trigger] final(self)@.trs[q]).len() == 0,
    {
        while self.trs.len() < n
            invariant
                self@.wf(),
                old(self)@.num_states() <= self@.num_states() <= n,
                self@.start == old(self)@.start,
                forall|q: int| 0 <= q < old(self)@.num_states() ==> #[trigger] self@.trs[q] == old(self)@.trs[q]
                    && self@.finals[q] == old(self)@.finals[q],
                forall|q: int| old(self)@.num_states() <= q < self@.num_states() ==> (#[trigger] self@.trs[q]).len() == 0,
            decreases n - self@.num_states(),
        {
            let ghost before = self@;
            self.add_state();
            proof {
                assert forall|q: int| 0 <= q < old(self)@.num_states() implies #[trigger] self@.trs[q] == old(self)@.trs[q]
                    && self@.finals[q] == old(self)@.finals[q] by {
                    assert(self@.trs[q] == before.trs[q]);
                    assert(self@.finals[q] == before.finals[q]);
                }
                assert forall|q: int| old(self)@.num_states() <= q < self@.num_states() implies (#[trigger] self@.trs[q]).len()
                    == 0 by {
                    if q < before.num_states() {
                        assert(self@.trs[q] == before.trs[q]);
                    }
                }
            }
        }
    }

    /// Adds a non-final state without transitions and returns its id.
    pub fn add_state(&mut self) -> (r: StateId)
        requires
            old(self)@.wf(),
            old(self)@.num_states() < usize::MAX,
        ensures
            final(self)@.wf(),
            r == old(self)@.num_states(),
            final(self)@.start == old(self)@.start,
            final(self)@.finals == old(self)@.finals.push(W::zero_spec()),
            final(self)@.trs == old(self)@.trs.push(Seq::<Tr<W>>::empty()),
    {
        let s = self.trs.len();
        self.finals.push(W::zero());
        self.trs.push(Vec::new());
        proof {
            assert(self@.trs =~= old(self)@.trs.push(Seq::<Tr<W>>::empty()));
            assert forall|q: int, i: int|
                0 <= q < self@.trs.len() && 0 <= i < self@.trs[q].len() implies #[trigger] self@.trs[q][i].nextstate
                < self@.trs.len() by {
                assert(q < old(self)@.trs.len());
                assert(self@.trs[q] == old(self)@.trs[q]);
            }
        }
        s
    }

    pub fn set_start(&mut self, s: StateId) -> (r: Result<(), FstError>)
        requires
            old(self)@.wf(),
        ensures
            final(self)@.wf(),
            s < old(self)@.num_states() <==> r is Ok,
            r is Err ==> r == Err::<(), FstError>(FstError::InvalidState) && final(self)@ == old(self)@,
            r is Ok ==> final(self)@ == (FstView { start: Some(s), ..old(self)@ }),
    {
        if s >= self.trs.len() {
            return Err(FstError::InvalidState);
        }
        self.start = Some(s);
        Ok(())
    }

    /// Final weight of `s`: zero when `s` is not final.
    pub fn final_weight(&self, s: StateId) -> (r: Result<W, FstError>)
        requires
            self@.wf(),
        ensures
            s < self@.num_states() ==> r == Ok::<W, FstError>(self@.finals[s as int]),
            s >= self@.num_states() ==> r == Err::<W, FstError>(FstError::InvalidState),
    {
        if s >= self.finals.len() {
            return Err(FstError::InvalidState);
        }
        Ok(self.finals[s])
    }

    /// Sets the final weight of `s` (zero makes it non-final).
    pub fn set_final(&mut self, s: StateId, w: W) -> (r: Result<(), FstError>)
        requires
            old(self)@.wf(),
        ensures
            final(self)@.wf(),
            s < old(self)@.num_states() <==> r is Ok,
            r is Err ==> r == Err::<(), FstError>(FstError::InvalidState) && final(self)@ == old(self)@,
            r is Ok ==> final(self)@ == (FstView {
                finals: old(self)@.finals.update(s as int, w),
                ..old(self)@
            }),
    {
        if s >= self.finals.len() {
            return Err(FstError::InvalidState);
        }
        self.finals.set(s, w);
        Ok(())
    }

    /// Outgoing transitions of `s`.
    pub fn get_trs(&self, s: StateId) -> (r: Result<&Vec<Tr<W>>, FstError>)
        requires
            self@.wf(),
        ensures
            s < self@.num_states() ==> (r matches Ok(v) && v@ == self@.trs[s as int]),
            s >= self@.num_states() ==> (r matches Err(e) && e == FstError::InvalidState),
    {
        if s >= self.trs.len() {
            return Err(FstError::InvalidState);
        }
        Ok(&self.trs[s])
    }

    /// Appends `tr` to the transitions of `s`; both `s` and `tr.nextstate` must exist.
    pub fn add_tr(&mut self, s: StateId, tr: Tr<W>) -> (r: Result<(), FstError>)
        requires
            old(self)@.wf(),
        ensures
            final(self)@.wf(),
            (s < old(self)@.num_states() && tr.nextstate < old(self)@.num_states()) <==> r is Ok,
            r is Err ==> r == Err::<(), FstError>(FstError::InvalidState) && final(self)@ == old(self)@,
            r is Ok ==> final(self)@ == (FstView {
                trs: old(self)@.trs.update(s as int, old(self)@.trs[s as int].push(tr)),
                ..old(self)@
            }),
    {
        if s >= self.trs.len() || tr.nextstate >= self.trs.len() {
            return Err(FstError::InvalidState);
        }
        self.trs[s].push(tr);
        proof {
            assert(self@.trs =~= old(self)@.trs.update(s as int, old(self)@.trs[s as int].push(tr)));
            assert forall|q: int, i: int|
                0 <= q < self@.trs.len() && 0 <= i < self@.trs[q].len() implies #[trigger] self@.trs[q][i].nextstate
                < self@.trs.len() by {
                if q != s || i < old(self)@.trs[q].len() {
                    assert(self@.trs[q][i] == old(self)@.trs[q][i]);
                }
            }
        }
        Ok(())
    }
}

/// The transitions of every state are sorted by input label (`input`) or by
/// output label.
pub open spec fn label_sorted<W>(f: FstView<W>, input: bool) -> bool {
    forall|s: int, i: int|
        0 <= s < f.trs.len() && 0 <= i < f.trs[s].len() - 1 ==> (if input {
            (#[trigger] f.trs[s][i]).ilabel <= f.trs[s][i + 1].ilabel
        } else {
            f.trs[s][i].olabel <= f.trs[s][i + 1].olabel
        })
}

/// Whether the transitions of every state of `fst` are sorted by input label
/// (`input`) or by output label.
pub fn is_label_sorted<W: Semiring>(fst: &VectorFst<W>, input: bool) -> (r: bool)
    requires
        fst@.wf(),
    ensures
        r == label_sorted(fst@, input),
{
    let n = fst.num_states();
    let mut s: usize = 0;
    while s < n
        invariant
            fst@.wf(),
            n == fst@.num_states(),
            0 <= s <= n,
            forall|q: int, i: int|
                0 <= q < s && 0 <= i < fst@.trs[q].len() - 1 ==> (if input {
                    (#[trigger] fst@.trs[q][i]).ilabel <= fst@.trs[q][i + 1].ilabel
                } else {
                    fst@.trs[q][i].olabel <= fst@.trs[q][i + 1].olabel
                }),
        decreases n - s,
    {
        let trs = fst.get_trs(s).unwrap();
        let mut i: usize = 0;
        while i < trs.len()
            invariant
                fst@.wf(),
                n == fst@.num_states(),
                s < n,
                trs@ == fst@.trs[s as int],
                0 <= i <= trs.len(),
                forall|j: int|
                    0 <= j < i && j < trs@.len() - 1 ==> (if input {
                        (#[trigger] trs@[j]).ilabel <= trs@[j + 1].ilabel
                    } else {
                        trs@[j].olabel <= trs@[j + 1].olabel
                    }),
            decreases trs.len() - i,
        {
            if i + 1 < trs.len() {
                let ok = if input {
                    trs[i].ilabel <= trs[i + 1].ilabel
                } else {
                    trs[i].olabel <= trs[i + 1].olabel
                };
                if !ok {
                    assert(fst@.trs[s as int][i as int] == trs@[i as int]);
                    return false;
                }
            }
            i = i + 1;
        }
        s = s + 1;
    }
    true
}

} // verus!
