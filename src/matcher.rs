//! Finding the outgoing transitions of a state that carry a given label.
use vstd::prelude::*;
use std::sync::Arc;
use crate::fst::{FstError, Label, StateId, Tr, VectorFst, FstView};
use crate::semiring::Semiring;

verus! {

/// Label of `t` on the matched side.
pub open spec fn side_label<W>(t: Tr<W>, match_input: bool) -> Label {
    if match_input {
        t.ilabel
    } else {
        t.olabel
    }
}

/// The transitions among the first `n` of `trs` whose label on the matched
/// side is `label`, in their order.
pub open spec fn matching<W>(trs: Seq<Tr<W>>, label: Label, match_input: bool, n: nat) -> Seq<Tr<W>>
    decreases n,
{
    if n == 0 {
        Seq::empty()
    } else {
        let prev = matching(trs, label, match_input, (n - 1) as nat);
        if side_label(trs[n - 1], match_input) == label {
            prev.push(trs[n - 1])
        } else {
            prev
        }
    }
}

/// A matcher that scans the transitions of a state.
pub struct GenericMatcher<W> {
    fst: Arc<VectorFst<W>>,
    match_input: bool,
}

impl<W: Semiring> GenericMatcher<W> {
    pub closed spec fn fst_view(&self) -> FstView<W> {
        (*self.fst)@
    }

    pub closed spec fn matches_input(&self) -> bool {
        self.match_input
    }

    pub fn new(fst: Arc<VectorFst<W>>, match_input: bool) -> (r: Self)
        ensures
            r.fst_view() == (*fst)@,
            r.matches_input() == match_input,
    {
        GenericMatcher { fst, match_input }
    }

    /// The FST this matcher reads.
    pub fn fst(&self) -> (r: &VectorFst<W>)
        ensures
            r@ == self.fst_view(),
    {
        &*self.fst
    }

    /// The transitions of `state` whose label on the matched side is `label`.
    pub fn iter(&self, state: StateId, label: Label) -> (r: Result<Vec<Tr<W>>, FstError>)
        requires
            self.fst_view().wf(),
        ensures
            state < self.fst_view().num_states() ==> (r matches Ok(v) && v@ == matching(
                self.fst_view().trs[state as int],
                label,
                self.matches_input(),
                self.fst_view().trs[state as int].len(),
            )),
            state >= self.fst_view().num_states() ==> r == Err::<Vec<Tr<W>>, FstError>(FstError::InvalidState),
    {
        let trs = match self.fst.get_trs(state) {
            Ok(t) => t,
            Err(e) => {
                return Err(e);
            },
        };
        let mut out: Vec<Tr<W>> = Vec::new();
        let mut i: usize = 0;
        while i < trs.len()
            invariant
                0 <= i <= trs.len(),
                out@ == matching(trs@, label, self.match_input, i as nat),
            decreases trs.len() - i,
        {
            let t = trs[i];
            let l = if self.match_input {
                t.ilabel
            } else {
                t.olabel
            };
            if l == label {
                out.push(t);
            }
            i = i + 1;
        }
        Ok(out)
    }
}

/// What `matching` keeps carries the label and comes from `trs`.
pub proof fn lemma_matching_members<W>(trs: Seq<Tr<W>>, label: Label, match_input: bool, n: nat)
    requires
        n <= trs.len(),
    ensures
        forall|k: int|
            0 <= k < matching(trs, label, match_input, n).len() ==> side_label(
                #[trigger] matching(trs, label, match_input, n)[k],
                match_input,
            ) == label && exists|j: int| 0 <= j < n && trs[j] == matching(trs, label, match_input, n)[k],
    decreases n,
{
    if n > 0 {
        lemma_matching_members(trs, label, match_input, (n - 1) as nat);
        let prev = matching(trs, label, match_input, (n - 1) as nat);
        let cur = matching(trs, label, match_input, n);
        assert forall|k: int| 0 <= k < cur.len() implies side_label(#[trigger] cur[k], match_input) == label
            && exists|j: int| 0 <= j < n && trs[j] == cur[k] by {
            if k < prev.len() {
                assert(cur[k] == prev[k]);
                let j = choose|j: int| 0 <= j < n - 1 && trs[j] == prev[k];
                assert(trs[j] == cur[k]);
            } else {
                assert(cur[k] == trs[n - 1]);
            }
        }
    }
}

/// Every one of the first `n` transitions that carries the label is kept.
pub proof fn lemma_matching_complete<W>(trs: Seq<Tr<W>>, label: Label, match_input: bool, n: nat, j: int)
    requires
        n <= trs.len(),
        0 <= j < n,
        side_label(trs[j], match_input) == label,
    ensures
        exists|k: int|
            0 <= k < matching(trs, label, match_input, n).len() && #[trigger] matching(trs, label, match_input, n)[k]
                == trs[j],
    decreases n,
{
    let prev = matching(trs, label, match_input, (n - 1) as nat);
    let cur = matching(trs, label, match_input, n);
    if j == n - 1 {
        assert(cur[prev.len() as int] == trs[j]);
    } else {
        lemma_matching_complete(trs, label, match_input, (n - 1) as nat, j);
        let k = choose|k: int| 0 <= k < prev.len() && #[trigger] prev[k] == trs[j];
        assert(cur[k] == prev[k]);
    }
}

} // verus!
