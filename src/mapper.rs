//! Per-transition rewrites of an FST and conversions between semirings.
use vstd::prelude::*;
use crate::fst::{EPS_LABEL, FinalTr, FstError, FstView, Tr, VectorFst, from_semiring_error, fst_error_of};
use crate::semiring::{KDELTA, Semiring, WeightQuantize, lemma_quantized_idempotent, quantized};

verus! {

/// Whether mapping final weights may turn them into transitions to a new
/// super-final state.
#[derive(Clone, Copy, Debug, PartialEq, Eq, Structural)]
pub enum MapFinalAction {
    /// Final weights stay final weights; a mapped final transition must keep
    /// epsilon labels.
    MapNoSuperfinal,
    /// A super-final state is added when some mapped final transition has a
    /// non-epsilon label.
    MapAllowSuperfinal,
    /// A super-final state is always added, and every final weight that is not
    /// zero after mapping becomes a transition to it.
    MapRequireSuperfinal,
}

/// A pure rewrite of transitions and of final transitions.
pub trait TrMapper<W: Semiring> {
    spec fn tr_map_spec(&self, tr: Tr<W>) -> Result<Tr<W>, FstError>;

    spec fn final_tr_map_spec(&self, ftr: FinalTr<W>) -> Result<FinalTr<W>, FstError>;

    spec fn final_action_spec(&self) -> MapFinalAction;

    /// Maps one transition; the state graph is kept, so `nextstate` is too.
    fn tr_map(&self, tr: &Tr<W>) -> (r: Result<Tr<W>, FstError>)
        ensures
            r == self.tr_map_spec(*tr),
            r matches Ok(t) ==> t.nextstate == tr.nextstate,
    ;

    fn final_tr_map(&self, ftr: &FinalTr<W>) -> (r: Result<FinalTr<W>, FstError>)
        ensures
            r == self.final_tr_map_spec(*ftr),
    ;

    fn final_action(&self) -> (r: MapFinalAction)
        ensures
            r == self.final_action_spec(),
    ;
}

/// The final transition that stands for the final weight `w`.
pub open spec fn final_tr_of<W>(w: W) -> FinalTr<W> {
    FinalTr { ilabel: EPS_LABEL, olabel: EPS_LABEL, weight: w }
}

/// Whether the mapped final transition `f` of a state becomes a transition to
/// the super-final state.
pub open spec fn goes_superfinal<W: Semiring>(action: MapFinalAction, f: FinalTr<W>) -> bool {
    match action {
        MapFinalAction::MapNoSuperfinal => false,
        MapFinalAction::MapAllowSuperfinal => f.ilabel != EPS_LABEL || f.olabel != EPS_LABEL,
        MapFinalAction::MapRequireSuperfinal => f.ilabel != EPS_LABEL || f.olabel != EPS_LABEL
            || f.weight != W::zero_spec(),
    }
}

/// Every transition and every final weight of `v` maps without error, and no
/// final transition needs a super-final state that the mapper does not allow.
pub open spec fn maps_ok<W: Semiring, M: TrMapper<W>>(v: FstView<W>, m: M) -> bool {
    &&& forall|s: int, i: int|
        0 <= s < v.trs.len() && 0 <= i < v.trs[s].len() ==> (#[trigger] m.tr_map_spec(v.trs[s][i])) is Ok
    &&& forall|s: int|
        0 <= s < v.finals.len() ==> (#[trigger] m.final_tr_map_spec(final_tr_of(v.finals[s]))) is Ok
    &&& m.final_action_spec() == MapFinalAction::MapNoSuperfinal ==> forall|s: int|
        0 <= s < v.finals.len() ==> (#[trigger] mapped_final(v, m, s)).ilabel == EPS_LABEL
            && mapped_final(v, m, s).olabel == EPS_LABEL
}

/// Mapped final transition of state `s`.
pub open spec fn mapped_final<W: Semiring, M: TrMapper<W>>(v: FstView<W>, m: M, s: int) -> FinalTr<W> {
    m.final_tr_map_spec(final_tr_of(v.finals[s]))->Ok_0
}

/// Whether mapping `v` adds a super-final state.
pub open spec fn adds_superfinal<W: Semiring, M: TrMapper<W>>(v: FstView<W>, m: M) -> bool {
    m.final_action_spec() == MapFinalAction::MapRequireSuperfinal || (m.final_action_spec()
        == MapFinalAction::MapAllowSuperfinal && exists|s: int|
        0 <= s < v.finals.len() && goes_superfinal(m.final_action_spec(), #[trigger] mapped_final(v, m, s)))
}

/// Transitions of state `s` after mapping.
pub open spec fn mapped_trs<W: Semiring, M: TrMapper<W>>(v: FstView<W>, m: M, s: int) -> Seq<Tr<W>> {
    let base = v.trs[s].map_values(|t: Tr<W>| m.tr_map_spec(t)->Ok_0);
    let f = mapped_final(v, m, s);
    if goes_superfinal(m.final_action_spec(), f) {
        base.push(Tr { ilabel: f.ilabel, olabel: f.olabel, weight: f.weight, nextstate: v.trs.len() as usize })
    } else {
        base
    }
}

/// Final weight of state `s` after mapping.
pub open spec fn mapped_final_weight<W: Semiring, M: TrMapper<W>>(v: FstView<W>, m: M, s: int) -> W {
    let f = mapped_final(v, m, s);
    if goes_superfinal(m.final_action_spec(), f) {
        W::zero_spec()
    } else {
        f.weight
    }
}

/// The FST that mapping `v` with `m` gives, when `maps_ok(v, m)`.
pub open spec fn tr_map_view<W: Semiring, M: TrMapper<W>>(v: FstView<W>, m: M) -> FstView<W> {
    let n = v.trs.len() as int;
    let trs = Seq::new(n as nat, |s: int| mapped_trs(v, m, s));
    let finals = Seq::new(n as nat, |s: int| mapped_final_weight(v, m, s));
    if adds_superfinal(v, m) {
        FstView { start: v.start, finals: finals.push(W::one_spec()), trs: trs.push(Seq::empty()) }
    } else {
        FstView { start: v.start, finals, trs }
    }
}

/// Applies `mapper` to every transition and every final weight of `fst`,
/// adding a super-final state where the mapper's final action asks for one.
/// On error `fst` is left as it was.
pub fn tr_map<W: Semiring, M: TrMapper<W>>(fst: &mut VectorFst<W>, mapper: &M) -> (r: Result<(), FstError>)
    requires
        old(fst)@.wf(),
        old(fst)@.num_states() < usize::MAX,
    ensures
        r is Ok <==> maps_ok(old(fst)@, *mapper),
        r is Ok ==> final(fst)@ == tr_map_view(old(fst)@, *mapper) && final(fst)@.wf(),
        r is Err ==> final(fst)@ == old(fst)@,
{
    let ghost v = fst@;
    let n = fst.num_states();
    let action = mapper.final_action();
    let mut new_trs: Vec<Vec<Tr<W>>> = Vec::new();
    let mut new_finals: Vec<W> = Vec::new();
    let mut superfinal = action == MapFinalAction::MapRequireSuperfinal;
    let mut s: usize = 0;
    while s < n
        invariant
            fst@ == v,
            v.wf(),
            n == v.num_states(),
            n < usize::MAX,
            action == mapper.final_action_spec(),
            0 <= s <= n,
            new_trs.len() == s,
            new_finals.len() == s,
            forall|q: int, i: int|
                0 <= q < s && 0 <= i < v.trs[q].len() ==> (#[trigger] mapper.tr_map_spec(v.trs[q][i])) is Ok,
            forall|q: int|
                0 <= q < s ==> (#[trigger] mapper.final_tr_map_spec(final_tr_of(v.finals[q]))) is Ok,
            action == MapFinalAction::MapNoSuperfinal ==> forall|q: int|
                0 <= q < s ==> (#[trigger] mapped_final(v, *mapper, q)).ilabel == EPS_LABEL
                    && mapped_final(v, *mapper, q).olabel == EPS_LABEL,
            forall|q: int| 0 <= q < s ==> #[trigger] new_trs@[q]@ == mapped_trs(v, *mapper, q),
            forall|q: int, i: int|
                0 <= q < s && 0 <= i < new_trs@[q]@.len() ==> #[trigger] new_trs@[q]@[i].nextstate <= n,
            forall|q: int, i: int|
                0 <= q < s && 0 <= i < v.trs[q].len() ==> #[trigger] new_trs@[q]@[i].nextstate
                    == v.trs[q][i].nextstate,
            forall|q: int| 0 <= q < s ==> #[trigger] new_finals@[q] == mapped_final_weight(v, *mapper, q),
            superfinal == (action == MapFinalAction::MapRequireSuperfinal || (action
                == MapFinalAction::MapAllowSuperfinal && exists|q: int|
                0 <= q < s && goes_superfinal(action, #[trigger] mapped_final(v, *mapper, q)))),
        decreases n - s,
    {
        let trs = fst.get_trs(s).unwrap();
        let mut row: Vec<Tr<W>> = Vec::new();
        let mut i: usize = 0;
        while i < trs.len()
            invariant
                fst@ == v,
                0 <= s < v.trs.len(),
                trs@ == v.trs[s as int],
                0 <= i <= trs.len(),
                row@.len() == i,
                forall|j: int| 0 <= j < i ==> (#[trigger] mapper.tr_map_spec(trs@[j])) is Ok,
                forall|j: int| 0 <= j < i ==> #[trigger] row@[j] == mapper.tr_map_spec(trs@[j])->Ok_0,
                forall|j: int| 0 <= j < i ==> #[trigger] row@[j].nextstate == trs@[j].nextstate,
            decreases trs.len() - i,
        {
            match mapper.tr_map(&trs[i]) {
                Ok(t) => row.push(t),
                Err(e) => {
                    assert(mapper.tr_map_spec(v.trs[s as int][i as int]) is Err);
                    return Err(e);
                },
            }
            i = i + 1;
        }
        let w = fst.final_weight(s).unwrap();
        let f = match mapper.final_tr_map(&FinalTr { ilabel: EPS_LABEL, olabel: EPS_LABEL, weight: w }) {
            Ok(f) => f,
            Err(e) => {
                assert(mapper.final_tr_map_spec(final_tr_of(v.finals[s as int])) is Err);
                return Err(e);
            },
        };
        let labelled = f.ilabel != EPS_LABEL || f.olabel != EPS_LABEL;
        let goes = match action {
            MapFinalAction::MapNoSuperfinal => false,
            MapFinalAction::MapAllowSuperfinal => labelled,
            MapFinalAction::MapRequireSuperfinal => labelled || !f.weight.is_zero(),
        };
        if action == MapFinalAction::MapNoSuperfinal && labelled {
            assert(mapped_final(v, *mapper, s as int) == f);
            return Err(FstError::SuperfinalRequired);
        }
        assert(row@ =~= v.trs[s as int].map_values(|t: Tr<W>| mapper.tr_map_spec(t)->Ok_0));
        if goes {
            row.push(Tr { ilabel: f.ilabel, olabel: f.olabel, weight: f.weight, nextstate: n });
            new_finals.push(W::zero());
            superfinal = true;
        } else {
            new_finals.push(f.weight);
        }
        new_trs.push(row);
        proof {
            assert forall|q: int, i: int|
                0 <= q < s + 1 && 0 <= i < new_trs@[q]@.len() implies #[trigger] new_trs@[q]@[i].nextstate <= n by {
                if q == s && i < trs@.len() {
                    assert(new_trs@[q]@[i].nextstate == trs@[i].nextstate);
                }
            }
            assert forall|q: int, i: int|
                0 <= q < s + 1 && 0 <= i < v.trs[q].len() implies #[trigger] new_trs@[q]@[i].nextstate
                    == v.trs[q][i].nextstate by {
                if q == s {
                    assert(new_trs@[q]@[i].nextstate == trs@[i].nextstate);
                }
            }
            assert(mapped_final(v, *mapper, s as int) == f);
        }
        s = s + 1;
    }
    if superfinal {
        new_trs.push(Vec::new());
        new_finals.push(W::one());
    }
    let ghost target = tr_map_view(v, *mapper);
    proof {
        assert(new_finals@ =~= target.finals);
        assert(new_trs@.map_values(|x: Vec<Tr<W>>| x@) =~= target.trs);
        assert(target.wf()) by {
            assert forall|q: int, i: int|
                0 <= q < target.trs.len() && 0 <= i < target.trs[q].len() implies #[trigger] target.trs[q][i].nextstate
                < target.trs.len() by {
                if q < n {
                    assert(target.trs[q] == new_trs@[q]@);
                    if i < v.trs[q].len() {
                        assert(new_trs@[q]@[i].nextstate == v.trs[q][i].nextstate);
                    } else {
                        assert(goes_superfinal(action, mapped_final(v, *mapper, q)));
                    }
                }
            }
        }
    }
    fst.set_states(new_finals, new_trs);
    Ok(())
}

} // verus!

verus! {

/// Leaves every transition and final weight as it is.
pub struct IdentityMapper {}

impl<W: Semiring> TrMapper<W> for IdentityMapper {
    open spec fn tr_map_spec(&self, tr: Tr<W>) -> Result<Tr<W>, FstError> {
        Ok(tr)
    }

    open spec fn final_tr_map_spec(&self, ftr: FinalTr<W>) -> Result<FinalTr<W>, FstError> {
        Ok(ftr)
    }

    open spec fn final_action_spec(&self) -> MapFinalAction {
        MapFinalAction::MapNoSuperfinal
    }

    fn tr_map(&self, tr: &Tr<W>) -> (r: Result<Tr<W>, FstError>) {
        Ok(*tr)
    }

    fn final_tr_map(&self, ftr: &FinalTr<W>) -> (r: Result<FinalTr<W>, FstError>) {
        Ok(*ftr)
    }

    fn final_action(&self) -> (r: MapFinalAction) {
        MapFinalAction::MapNoSuperfinal
    }
}

/// Swaps input and output labels.
pub struct InvertMapper {}

impl<W: Semiring> TrMapper<W> for InvertMapper {
    open spec fn tr_map_spec(&self, tr: Tr<W>) -> Result<Tr<W>, FstError> {
        Ok(Tr { ilabel: tr.olabel, olabel: tr.ilabel, ..tr })
    }

    open spec fn final_tr_map_spec(&self, ftr: FinalTr<W>) -> Result<FinalTr<W>, FstError> {
        Ok(FinalTr { ilabel: ftr.olabel, olabel: ftr.ilabel, weight: ftr.weight })
    }

    open spec fn final_action_spec(&self) -> MapFinalAction {
        MapFinalAction::MapNoSuperfinal
    }

    fn tr_map(&self, tr: &Tr<W>) -> (r: Result<Tr<W>, FstError>) {
        Ok(Tr { ilabel: tr.olabel, olabel: tr.ilabel, weight: tr.weight, nextstate: tr.nextstate })
    }

    fn final_tr_map(&self, ftr: &FinalTr<W>) -> (r: Result<FinalTr<W>, FstError>) {
        Ok(FinalTr { ilabel: ftr.olabel, olabel: ftr.ilabel, weight: ftr.weight })
    }

    fn final_action(&self) -> (r: MapFinalAction) {
        MapFinalAction::MapNoSuperfinal
    }
}

/// Replaces every input label by epsilon.
pub struct InputEpsilonMapper {}

impl<W: Semiring> TrMapper<W> for InputEpsilonMapper {
    open spec fn tr_map_spec(&self, tr: Tr<W>) -> Result<Tr<W>, FstError> {
        Ok(Tr { ilabel: EPS_LABEL, ..tr })
    }

    open spec fn final_tr_map_spec(&self, ftr: FinalTr<W>) -> Result<FinalTr<W>, FstError> {
        Ok(ftr)
    }

    open spec fn final_action_spec(&self) -> MapFinalAction {
        MapFinalAction::MapNoSuperfinal
    }

    fn tr_map(&self, tr: &Tr<W>) -> (r: Result<Tr<W>, FstError>) {
        Ok(Tr { ilabel: EPS_LABEL, olabel: tr.olabel, weight: tr.weight, nextstate: tr.nextstate })
    }

    fn final_tr_map(&self, ftr: &FinalTr<W>) -> (r: Result<FinalTr<W>, FstError>) {
        Ok(*ftr)
    }

    fn final_action(&self) -> (r: MapFinalAction) {
        MapFinalAction::MapNoSuperfinal
    }
}

/// Replaces every output label by epsilon.
pub struct OutputEpsilonMapper {}

impl<W: Semiring> TrMapper<W> for OutputEpsilonMapper {
    open spec fn tr_map_spec(&self, tr: Tr<W>) -> Result<Tr<W>, FstError> {
        Ok(Tr { olabel: EPS_LABEL, ..tr })
    }

    open spec fn final_tr_map_spec(&self, ftr: FinalTr<W>) -> Result<FinalTr<W>, FstError> {
        Ok(ftr)
    }

    open spec fn final_action_spec(&self) -> MapFinalAction {
        MapFinalAction::MapNoSuperfinal
    }

    fn tr_map(&self, tr: &Tr<W>) -> (r: Result<Tr<W>, FstError>) {
        Ok(Tr { ilabel: tr.ilabel, olabel: EPS_LABEL, weight: tr.weight, nextstate: tr.nextstate })
    }

    fn final_tr_map(&self, ftr: &FinalTr<W>) -> (r: Result<FinalTr<W>, FstError>) {
        Ok(*ftr)
    }

    fn final_action(&self) -> (r: MapFinalAction) {
        MapFinalAction::MapNoSuperfinal
    }
}

/// `w` right-multiplied by `c`, with semiring errors as FST errors.
pub open spec fn times_weight<W: Semiring>(w: W, c: W) -> Result<W, FstError> {
    match w.times_spec(c) {
        Ok(p) => Ok(p),
        Err(e) => Err(fst_error_of(e)),
    }
}

/// Right-multiplies every weight by a constant.
pub struct TimesMapper<W> {
    to_multiply: W,
}

impl<W: Semiring> TimesMapper<W> {
    pub closed spec fn factor(&self) -> W {
        self.to_multiply
    }

    /// Multiplies by the weight of raw value `value`.
    pub fn new(value: i64) -> (r: Self)
        ensures
            r.factor() == W::new_spec(value),
    {
        TimesMapper { to_multiply: W::new(value) }
    }

    pub fn from_weight(value: W) -> (r: Self)
        ensures
            r.factor() == value,
    {
        TimesMapper { to_multiply: value }
    }

    pub fn map_weight(&self, weight: &mut W) -> (r: Result<(), FstError>)
        ensures
            match times_weight(*old(weight), self.factor()) {
                Ok(p) => r is Ok && *final(weight) == p,
                Err(e) => r == Err::<(), FstError>(e) && *final(weight) == *old(weight),
            },
    {
        match weight.times(&self.to_multiply) {
            Ok(p) => {
                *weight = p;
                Ok(())
            },
            Err(e) => Err(from_semiring_error(e)),
        }
    }
}

impl<W: Semiring> TrMapper<W> for TimesMapper<W> {
    open spec fn tr_map_spec(&self, tr: Tr<W>) -> Result<Tr<W>, FstError> {
        match times_weight(tr.weight, self.factor()) {
            Ok(p) => Ok(Tr { weight: p, ..tr }),
            Err(e) => Err(e),
        }
    }

    open spec fn final_tr_map_spec(&self, ftr: FinalTr<W>) -> Result<FinalTr<W>, FstError> {
        match times_weight(ftr.weight, self.factor()) {
            Ok(p) => Ok(FinalTr { weight: p, ..ftr }),
            Err(e) => Err(e),
        }
    }

    open spec fn final_action_spec(&self) -> MapFinalAction {
        MapFinalAction::MapNoSuperfinal
    }

    fn tr_map(&self, tr: &Tr<W>) -> (r: Result<Tr<W>, FstError>) {
        let mut w = tr.weight;
        match self.map_weight(&mut w) {
            Ok(()) => Ok(Tr { ilabel: tr.ilabel, olabel: tr.olabel, weight: w, nextstate: tr.nextstate }),
            Err(e) => Err(e),
        }
    }

    fn final_tr_map(&self, ftr: &FinalTr<W>) -> (r: Result<FinalTr<W>, FstError>) {
        let mut w = ftr.weight;
        match self.map_weight(&mut w) {
            Ok(()) => Ok(FinalTr { ilabel: ftr.ilabel, olabel: ftr.olabel, weight: w }),
            Err(e) => Err(e),
        }
    }

    fn final_action(&self) -> (r: MapFinalAction) {
        MapFinalAction::MapNoSuperfinal
    }
}

/// `w` quantized with step `delta`, with semiring errors as FST errors; a step
/// that is not positive is refused.
pub open spec fn quantize_weight<W: Semiring>(w: W, delta: i64) -> Result<W, FstError> {
    if delta <= 0 {
        Err(FstError::SemiringInvalid)
    } else {
        match quantized(w, delta) {
            Ok(q) => Ok(q),
            Err(e) => Err(fst_error_of(e)),
        }
    }
}

/// Quantizes `weight` with the default step `KDELTA`; on error `weight` is kept.
pub fn map_weight<W: WeightQuantize>(weight: &mut W) -> (r: Result<(), FstError>)
    ensures
        match quantize_weight(*old(weight), KDELTA) {
            Ok(q) => r is Ok && *final(weight) == q,
            Err(e) => r == Err::<(), FstError>(e) && *final(weight) == *old(weight),
        },
{
    match weight.quantize(KDELTA) {
        Ok(q) => {
            *weight = q;
            Ok(())
        },
        Err(e) => Err(from_semiring_error(e)),
    }
}

/// Quantizes every weight to a grid (by default of step `KDELTA`).
pub struct QuantizeMapper {
    delta: i64,
}

impl QuantizeMapper {
    pub closed spec fn step(&self) -> i64 {
        self.delta
    }

    pub fn new() -> (r: Self)
        ensures
            r.step() == KDELTA,
    {
        QuantizeMapper { delta: KDELTA }
    }

    pub fn with_delta(delta: i64) -> (r: Self)
        requires
            delta > 0,
        ensures
            r.step() == delta,
    {
        QuantizeMapper { delta }
    }

    pub fn map_weight<W: WeightQuantize>(&self, weight: &mut W) -> (r: Result<(), FstError>)
        ensures
            match quantize_weight(*old(weight), self.step()) {
                Ok(q) => r is Ok && *final(weight) == q,
                Err(e) => r == Err::<(), FstError>(e) && *final(weight) == *old(weight),
            },
    {
        if self.delta <= 0 {
            return Err(FstError::SemiringInvalid);
        }
        match weight.quantize(self.delta) {
            Ok(q) => {
                *weight = q;
                Ok(())
            },
            Err(e) => Err(from_semiring_error(e)),
        }
    }
}

impl<W: WeightQuantize> TrMapper<W> for QuantizeMapper {
    open spec fn tr_map_spec(&self, tr: Tr<W>) -> Result<Tr<W>, FstError> {
        match quantize_weight(tr.weight, self.step()) {
            Ok(q) => Ok(Tr { weight: q, ..tr }),
            Err(e) => Err(e),
        }
    }

    open spec fn final_tr_map_spec(&self, ftr: FinalTr<W>) -> Result<FinalTr<W>, FstError> {
        match quantize_weight(ftr.weight, self.step()) {
            Ok(q) => Ok(FinalTr { weight: q, ..ftr }),
            Err(e) => Err(e),
        }
    }

    open spec fn final_action_spec(&self) -> MapFinalAction {
        MapFinalAction::MapNoSuperfinal
    }

    fn tr_map(&self, tr: &Tr<W>) -> (r: Result<Tr<W>, FstError>) {
        let mut w = tr.weight;
        match self.map_weight(&mut w) {
            Ok(()) => Ok(Tr { ilabel: tr.ilabel, olabel: tr.olabel, weight: w, nextstate: tr.nextstate }),
            Err(e) => Err(e),
        }
    }

    fn final_tr_map(&self, ftr: &FinalTr<W>) -> (r: Result<FinalTr<W>, FstError>) {
        let mut w = ftr.weight;
        match self.map_weight(&mut w) {
            Ok(()) => Ok(FinalTr { ilabel: ftr.ilabel, olabel: ftr.olabel, weight: w }),
            Err(e) => Err(e),
        }
    }

    fn final_action(&self) -> (r: MapFinalAction) {
        MapFinalAction::MapNoSuperfinal
    }
}

/// Mapping with the identity mapper succeeds and gives back the same FST,
/// state by state and transition by transition.
pub proof fn lemma_identity_map<W: Semiring>(v: FstView<W>)
    requires
        v.wf(),
    ensures
        maps_ok(v, IdentityMapper {}),
        tr_map_view(v, IdentityMapper {}) == v,
{
    let m = IdentityMapper {};
    let r = tr_map_view(v, m);
    assert(!adds_superfinal(v, m));
    assert(r.finals =~= v.finals);
    assert forall|s: int| 0 <= s < v.trs.len() implies #[trigger] r.trs[s] == v.trs[s] by {
        assert(mapped_trs(v, m, s) =~= v.trs[s]);
    }
    assert(r.trs =~= v.trs);
}

/// Quantizing an FST twice with the same step gives what quantizing once gives.
pub proof fn lemma_quantize_map_idempotent<W: WeightQuantize>(v: FstView<W>, m: QuantizeMapper)
    requires
        v.wf(),
        maps_ok(v, m),
    ensures
        maps_ok(tr_map_view(v, m), m),
        tr_map_view(tr_map_view(v, m), m) == tr_map_view(v, m),
{
    let w = tr_map_view(v, m);
    let ww = tr_map_view(w, m);
    assert(!adds_superfinal(v, m));
    assert(!adds_superfinal(w, m));
    assert forall|s: int, i: int|
        0 <= s < w.trs.len() && 0 <= i < w.trs[s].len() implies (#[trigger] m.tr_map_spec(
        w.trs[s][i],
    )) == Ok::<Tr<W>, FstError>(w.trs[s][i]) by {
        assert(m.tr_map_spec(v.trs[s][i]) is Ok);
        lemma_quantized_idempotent(v.trs[s][i].weight, m.step());
    }
    assert forall|s: int| 0 <= s < w.finals.len() implies (#[trigger] m.final_tr_map_spec(
        final_tr_of(w.finals[s]),
    )) == Ok::<FinalTr<W>, FstError>(final_tr_of(w.finals[s])) by {
        assert(m.final_tr_map_spec(final_tr_of(v.finals[s])) is Ok);
        lemma_quantized_idempotent(v.finals[s], m.step());
    }
    assert forall|s: int| 0 <= s < w.trs.len() implies #[trigger] ww.trs[s] == w.trs[s] by {
        assert(mapped_trs(w, m, s) =~= w.trs[s]);
    }
    assert(ww.trs =~= w.trs);
    assert(ww.finals =~= w.finals);
}

} // verus!
