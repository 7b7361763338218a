//! Conversion of an FST from one semiring to another, weight by weight.
use vstd::prelude::*;
use crate::fst::{FstError, FstView, Tr, VectorFst};
use crate::semiring::Semiring;

verus! {

/// Turns weights of `SI` into weights of `SO`; labels and states are kept.
pub trait WeightConverter<SI: Semiring, SO: Semiring> {
    spec fn convert_spec(&self, w: SI) -> Result<SO, FstError>;

    fn convert(&self, w: &SI) -> (r: Result<SO, FstError>)
        ensures
            r == self.convert_spec(*w),
    ;
}

/// Builds the target weight from the source weight's raw value.
pub struct SimpleWeightConverter {}

impl<SI: Semiring, SO: Semiring> WeightConverter<SI, SO> for SimpleWeightConverter {
    open spec fn convert_spec(&self, w: SI) -> Result<SO, FstError> {
        Ok(SO::new_spec(w.value_spec()))
    }

    fn convert(&self, w: &SI) -> (r: Result<SO, FstError>) {
        Ok(SO::new(w.value()))
    }
}

/// `tr` with its weight converted, when that succeeds.
pub open spec fn converted_tr<SI: Semiring, SO: Semiring, C: WeightConverter<SI, SO>>(
    c: C,
    tr: Tr<SI>,
) -> Tr<SO> {
    Tr { ilabel: tr.ilabel, olabel: tr.olabel, weight: c.convert_spec(tr.weight)->Ok_0, nextstate: tr.nextstate }
}

/// Every weight of `v` converts without error.
pub open spec fn converts_ok<SI: Semiring, SO: Semiring, C: WeightConverter<SI, SO>>(
    v: FstView<SI>,
    c: C,
) -> bool {
    &&& forall|s: int, i: int|
        0 <= s < v.trs.len() && 0 <= i < v.trs[s].len() ==> (#[trigger] c.convert_spec(v.trs[s][i].weight)) is Ok
    &&& forall|s: int| 0 <= s < v.finals.len() ==> (#[trigger] c.convert_spec(v.finals[s])) is Ok
}

/// The converted FST, when `converts_ok(v, c)`.
pub open spec fn converted_view<SI: Semiring, SO: Semiring, C: WeightConverter<SI, SO>>(
    v: FstView<SI>,
    c: C,
) -> FstView<SO> {
    FstView {
        start: v.start,
        finals: v.finals.map_values(|w: SI| c.convert_spec(w)->Ok_0),
        trs: v.trs.map_values(|row: Seq<Tr<SI>>| row.map_values(|t: Tr<SI>| converted_tr(c, t))),
    }
}

/// The FST `fst` with every weight converted by `converter`.
pub fn weight_convert<SI: Semiring, SO: Semiring, C: WeightConverter<SI, SO>>(
    fst: &VectorFst<SI>,
    converter: &C,
) -> (r: Result<VectorFst<SO>, FstError>)
    requires
        fst@.wf(),
    ensures
        r is Ok <==> converts_ok(fst@, *converter),
        r matches Ok(out) ==> out@ == converted_view(fst@, *converter) && out@.wf(),
{
    let ghost v = fst@;
    let ghost target = converted_view(v, *converter);
    let n = fst.num_states();
    let mut trs: Vec<Vec<Tr<SO>>> = Vec::new();
    let mut finals: Vec<SO> = Vec::new();
    let mut s: usize = 0;
    while s < n
        invariant
            fst@ == v,
            target == converted_view(v, *converter),
            v.wf(),
            n == v.num_states(),
            0 <= s <= n,
            trs.len() == s,
            finals.len() == s,
            forall|q: int, i: int|
                0 <= q < s && 0 <= i < v.trs[q].len() ==> (#[trigger] converter.convert_spec(v.trs[q][i].weight)) is Ok,
            forall|q: int| 0 <= q < s ==> (#[trigger] converter.convert_spec(v.finals[q])) is Ok,
            forall|q: int| 0 <= q < s ==> #[trigger] trs@[q]@ == target.trs[q],
            forall|q: int| 0 <= q < s ==> #[trigger] finals@[q] == target.finals[q],
        decreases n - s,
    {
        let src = fst.get_trs(s).unwrap();
        let mut row: Vec<Tr<SO>> = Vec::new();
        let mut i: usize = 0;
        while i < src.len()
            invariant
                fst@ == v,
                0 <= s < v.trs.len(),
                src@ == v.trs[s as int],
                0 <= i <= src.len(),
                row@.len() == i,
                forall|j: int| 0 <= j < i ==> (#[trigger] converter.convert_spec(src@[j].weight)) is Ok,
                forall|j: int| 0 <= j < i ==> #[trigger] row@[j] == converted_tr(*converter, src@[j]),
            decreases src.len() - i,
        {
            let t = &src[i];
            match converter.convert(&t.weight) {
                Ok(w) => row.push(Tr { ilabel: t.ilabel, olabel: t.olabel, weight: w, nextstate: t.nextstate }),
                Err(e) => {
                    assert(converter.convert_spec(v.trs[s as int][i as int].weight) is Err);
                    return Err(e);
                },
            }
            i = i + 1;
        }
        assert(row@ =~= target.trs[s as int]);
        trs.push(row);
        let w = fst.final_weight(s).unwrap();
        match converter.convert(&w) {
            Ok(cw) => finals.push(cw),
            Err(e) => {
                assert(converter.convert_spec(v.finals[s as int]) is Err);
                return Err(e);
            },
        }
        s = s + 1;
    }
    proof {
        assert(finals@ =~= target.finals);
        assert(trs@.map_values(|x: Vec<Tr<SO>>| x@) =~= target.trs);
        assert forall|q: int, i: int|
            0 <= q < target.trs.len() && 0 <= i < target.trs[q].len() implies #[trigger] target.trs[q][i].nextstate
            < target.trs.len() by {
            assert(target.trs[q][i].nextstate == v.trs[q][i].nextstate);
        }
    }
    Ok(VectorFst::from_parts(fst.start(), finals, trs))
}

} // verus!
