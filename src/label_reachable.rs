//! Which labels, and whether a final state, can be reached from each state of
//! an FST, answered through per-state interval sets.
use vstd::prelude::*;
use std::collections::HashMap;
use crate::fst::{EPS_LABEL, FstError, FstView, Label, NO_LABEL, StateId, Tr, VectorFst, is_label_sorted, label_sorted};
use crate::interval_set::IntervalSet;
use crate::matcher::side_label;
use crate::reachability::{LabelGraph, edge, graph_of, lemma_last_edge, lemma_reach_step, reach_n, reachable, reachable_from};
use crate::semiring::Semiring;

verus! {

broadcast use vstd::std_specs::hash::group_hash_axioms;

/// `g`, with final states `finals`, is an FST of `ins` input states
/// transformed for label reachability with label states `l2s`: every
/// non-epsilon edge enters the state of its label, label states are final and
/// have no edges, only label states are final, and nothing else enters them.
pub open spec fn transformed(g: LabelGraph, finals: Set<int>, l2s: Map<Label, StateId>, ins: nat) -> bool {
    &&& ins <= g.len()
    &&& forall|u: int, i: int|
        0 <= u < g.len() && 0 <= i < g[u].len() ==> (#[trigger] g[u][i]).1 < g.len() && (g[u][i].0 != EPS_LABEL
            ==> l2s.contains_key(g[u][i].0) && g[u][i].1 == l2s[g[u][i].0])
    &&& forall|l: Label|
        #[trigger] l2s.contains_key(l) ==> ins <= l2s[l] < g.len() && finals.contains(l2s[l] as int)
            && g[l2s[l] as int].len() == 0
    &&& forall|l1: Label, l2: Label|
        l2s.contains_key(l1) && l2s.contains_key(l2) && #[trigger] l2s[l1] == #[trigger] l2s[l2] ==> l1 == l2
    &&& forall|u: int, i: int, l: Label|
        0 <= u < g.len() && 0 <= i < g[u].len() && l2s.contains_key(l) && (#[trigger] g[u][i]).1 == #[trigger] l2s[l]
            ==> g[u][i].0 == l
    &&& forall|u: int| #[trigger] finals.contains(u) ==> exists|l: Label| l2s.contains_key(l) && l2s[l] == u
}

/// A path from `s` reaches a final state through an edge labelled `l`.
pub open spec fn path_with_label(g: LabelGraph, finals: Set<int>, s: int, l: Label) -> bool {
    exists|u: int, i: int, f: int|
        0 <= u < g.len() && 0 <= i < g[u].len() && reachable(g, s, u) && (#[trigger] g[u][i]).0 == l
            && reachable(g, g[u][i].1 as int, f) && #[trigger] finals.contains(f)
}

/// In a transformed graph, the label state of `l` is reachable from an
/// input state exactly when some path from it to a final state has an edge
/// labelled `l`.
pub proof fn lemma_label_state_reachable(
    g: LabelGraph,
    finals: Set<int>,
    l2s: Map<Label, StateId>,
    ins: nat,
    s: int,
    l: Label,
)
    requires
        transformed(g, finals, l2s, ins),
        0 <= s < ins,
        l != EPS_LABEL,
    ensures
        (l2s.contains_key(l) && reachable(g, s, l2s[l] as int)) <==> path_with_label(g, finals, s, l),
{
    if l2s.contains_key(l) && reachable(g, s, l2s[l] as int) {
        let q = l2s[l] as int;
        let n = choose|n: nat| #[trigger] reach_n(g, s, q, n);
        lemma_last_edge(g, s, q, n);
        let u = choose|u: int| reachable(g, s, u) && #[trigger] edge(g, u, q);
        let i = choose|i: int| 0 <= i < g[u].len() && (#[trigger] g[u][i]).1 == q;
        assert(g[u][i].0 == l);
        assert(reach_n(g, q, q, 0));
        assert(reachable(g, g[u][i].1 as int, q));
        assert(finals.contains(q));
    }
    if path_with_label(g, finals, s, l) {
        let (u, i, f) = choose|u: int, i: int, f: int|
            0 <= u < g.len() && 0 <= i < g[u].len() && reachable(g, s, u) && (#[trigger] g[u][i]).0 == l
                && reachable(g, g[u][i].1 as int, f) && #[trigger] finals.contains(f);
        assert(edge(g, u, g[u][i].1 as int));
        lemma_reach_step(g, s, u, g[u][i].1 as int);
    }
}

pub struct LabelReachableData {
    reach_input: bool,
    final_label: Label,
    label2index: HashMap<Label, Label>,
    interval_sets: Vec<IntervalSet>,
}

impl LabelReachableData {
    pub closed spec fn reach_input_spec(&self) -> bool {
        self.reach_input
    }

    pub closed spec fn final_label_spec(&self) -> Label {
        self.final_label
    }

    /// Index of the state of each label.
    pub closed spec fn label_index(&self) -> Map<Label, Label> {
        self.label2index@
    }

    pub closed spec fn sets(&self) -> Seq<IntervalSet> {
        self.interval_sets@
    }

    /// Data that answers no query yet.
    pub fn new(reach_input: bool) -> (r: Self)
        ensures
            r.reach_input_spec() == reach_input,
            r.final_label_spec() == NO_LABEL,
            r.label_index() == Map::<Label, Label>::empty(),
            r.sets().len() == 0,
    {
        LabelReachableData {
            reach_input,
            final_label: NO_LABEL,
            label2index: HashMap::new(),
            interval_sets: Vec::new(),
        }
    }

    /// Interval set of state `s`.
    pub fn interval_set(&self, s: StateId) -> (r: Result<&IntervalSet, FstError>)
        ensures
            s < self.sets().len() ==> (r matches Ok(iv) && *iv == self.sets()[s as int]),
            s >= self.sets().len() ==> r == Err::<&IntervalSet, FstError>(FstError::InvalidState),
    {
        if s >= self.interval_sets.len() {
            return Err(FstError::InvalidState);
        }
        Ok(&self.interval_sets[s])
    }

    /// Index of the state that final states lead to (`NO_LABEL` when no state
    /// is final).
    pub fn final_label(&self) -> (r: Label)
        ensures
            r == self.final_label_spec(),
    {
        self.final_label
    }
}

/// `t` sent to the state of its label, unless that label is epsilon.
pub open spec fn redirected<W>(t: Tr<W>, reach_input: bool, l2s: Map<Label, StateId>) -> Tr<W> {
    if side_label(t, reach_input) == EPS_LABEL {
        t
    } else {
        Tr { nextstate: l2s[side_label(t, reach_input)], ..t }
    }
}

/// The transitions that input state `s` has after the transformation: its
/// own, redirected, then a `NO_LABEL` transition carrying its final weight
/// when that is not zero.
pub open spec fn transformed_row<W: Semiring>(f: FstView<W>, reach_input: bool, l2s: Map<Label, StateId>, s: int) -> Seq<
    Tr<W>,
> {
    let base = f.trs[s].map_values(|t: Tr<W>| redirected(t, reach_input, l2s));
    if f.finals[s] != W::zero_spec() {
        base.push(Tr { ilabel: NO_LABEL, olabel: NO_LABEL, weight: f.finals[s], nextstate: l2s[NO_LABEL] })
    } else {
        base
    }
}

/// Some transition of `f` among the first `s` states, and the first `i` of
/// state `s`, has `l` as non-epsilon label on the chosen side.
pub open spec fn label_seen<W>(f: FstView<W>, reach_input: bool, s: int, i: int, l: Label) -> bool {
    &&& l != EPS_LABEL
    &&& {
        ||| exists|q: int, k: int|
            0 <= q < s && 0 <= k < f.trs[q].len() && side_label(#[trigger] f.trs[q][k], reach_input) == l
        ||| exists|k: int| 0 <= k < i && side_label(#[trigger] f.trs[s][k], reach_input) == l
    }
}

/// Some state below `s` has a non-zero final weight.
pub open spec fn final_seen<W: Semiring>(f: FstView<W>, s: int) -> bool {
    exists|q: int| 0 <= q < s && #[trigger] f.finals[q] != W::zero_spec()
}

/// Some transition of a state below `m` of `t` enters `u`.
pub open spec fn has_incoming<W>(t: FstView<W>, m: int, u: int) -> bool {
    exists|q: int, i: int| 0 <= q < m && 0 <= i < t.trs[q].len() && (#[trigger] t.trs[q][i]).nextstate == u
}

/// `t` is `f` transformed for label reachability on the chosen side, with
/// `l2s` the state of each label: `l2s` has a key for each non-epsilon label
/// of `f` and for `NO_LABEL` when some final weight is not zero; the input
/// states keep their transitions, redirected (`transformed_row`), and lose
/// their final weights; the label states follow them, final with weight one
/// and without transitions; the last state is the start, with an epsilon
/// transition of weight one to each state that no transition enters.
pub open spec fn is_transform<W: Semiring>(f: FstView<W>, reach_input: bool, t: FstView<W>, l2s: Map<Label, StateId>) -> bool {
    let n = f.num_states();
    let m = t.num_states() - 1;
    &&& t.wf()
    &&& n < t.num_states()
    &&& forall|l: Label|
        #[trigger] l2s.contains_key(l) <==> label_seen(f, reach_input, n as int, 0, l) || (l == NO_LABEL
            && final_seen(f, n as int))
    &&& forall|l: Label| #[trigger] l2s.contains_key(l) ==> n <= l2s[l] < m
    &&& l2s.dom().finite()
    &&& t.num_states() == n + l2s.dom().len() + 1
    &&& forall|l1: Label, l2: Label|
        l2s.contains_key(l1) && l2s.contains_key(l2) && #[trigger] l2s[l1] == #[trigger] l2s[l2] ==> l1 == l2
    &&& forall|v: int| n <= v < m ==> #[trigger] is_label_state(l2s, v)
    &&& forall|s: int| 0 <= s < n ==> #[trigger] t.trs[s] == transformed_row(f, reach_input, l2s, s) && t.finals[s]
        == W::zero_spec()
    &&& forall|l: Label|
        #[trigger] l2s.contains_key(l) ==> t.finals[l2s[l] as int] == W::one_spec() && t.trs[l2s[l] as int].len() == 0
    &&& t.start == Some(m as StateId)
    &&& t.finals[m] == W::zero_spec()
    &&& forall|j: int|
        0 <= j < t.trs[m].len() ==> (#[trigger] t.trs[m][j]).ilabel == EPS_LABEL && t.trs[m][j].olabel == EPS_LABEL
            && t.trs[m][j].weight == W::one_spec() && t.trs[m][j].nextstate < m && !has_incoming(
            t,
            m,
            t.trs[m][j].nextstate as int,
        )
    &&& forall|u: int|
        0 <= u < m && !#[trigger] has_incoming(t, m, u) ==> exists|j: int|
            0 <= j < t.trs[m].len() && (#[trigger] t.trs[m][j]).nextstate == u
}

/// States of `f` with a non-zero final weight.
pub open spec fn finals_of<W: Semiring>(f: FstView<W>) -> Set<int> {
    Set::new(|u: int| 0 <= u < f.num_states() && f.finals[u] != W::zero_spec())
}

/// `v` is the state of some label.
pub open spec fn is_label_state(l2s: Map<Label, StateId>, v: int) -> bool {
    exists|l: Label| #[trigger] l2s.contains_key(l) && l2s[l] == v
}

/// Label states are the states `ins..n` of `has_in`, one per label, all entered.
spec fn label_states_ok(l2s: Map<Label, StateId>, has_in: Seq<bool>, ins: nat) -> bool {
    &&& ins <= has_in.len()
    &&& forall|l: Label| #[trigger] l2s.contains_key(l) ==> ins <= l2s[l] < has_in.len() && has_in[l2s[l] as int]
    &&& forall|l1: Label, l2: Label|
        l2s.contains_key(l1) && l2s.contains_key(l2) && #[trigger] l2s[l1] == #[trigger] l2s[l2] ==> l1 == l2
    &&& forall|v: int| ins <= v < has_in.len() ==> #[trigger] is_label_state(l2s, v)
}

/// A transition already placed: its target exists and is entered, a labelled one
/// goes to its label's state, and only it enters that state.
spec fn placed_ok<W>(t: Tr<W>, reach_input: bool, l2s: Map<Label, StateId>, has_in: Seq<bool>) -> bool {
    &&& t.nextstate < has_in.len()
    &&& has_in[t.nextstate as int]
    &&& side_label(t, reach_input) != EPS_LABEL ==> l2s.contains_key(side_label(t, reach_input))
        && t.nextstate == l2s[side_label(t, reach_input)]
    &&& forall|l: Label| #[trigger] l2s.contains_key(l) && t.nextstate == l2s[l] ==> side_label(t, reach_input) == l
}

/// The state of `label`, added (as entered) when `label` has none yet.
fn state_for_label(l2s: &mut HashMap<Label, StateId>, has_in: &mut Vec<bool>, label: Label, ins: usize) -> (r: StateId)
    requires
        label_states_ok(old(l2s)@, old(has_in)@, ins as nat),
    ensures
        label_states_ok(final(l2s)@, final(has_in)@, ins as nat),
        final(l2s)@.contains_key(label),
        final(l2s)@[label] == r,
        old(l2s)@.contains_key(label) ==> final(l2s)@ == old(l2s)@ && final(has_in)@ == old(has_in)@,
        !old(l2s)@.contains_key(label) ==> r == old(has_in)@.len() && final(l2s)@ == old(l2s)@.insert(label, r)
            && final(has_in)@ == old(has_in)@.push(true),
{
    match l2s.get(&label) {
        Some(q) => *q,
        None => {
            let q = has_in.len();
            has_in.push(true);
            l2s.insert(label, q);
            proof {
                let m = l2s@;
                let h = has_in@;
                assert forall|l1: Label, l2: Label|
                    m.contains_key(l1) && m.contains_key(l2) && #[trigger] m[l1] == #[trigger] m[l2] implies l1 == l2 by {
                    if l1 != label && l2 != label {
                        assert(old(l2s)@[l1] == old(l2s)@[l2]);
                    }
                }
                assert forall|v: int| ins <= v < h.len() implies #[trigger] is_label_state(m, v) by {
                    if v < h.len() - 1 {
                        assert(is_label_state(old(l2s)@, v));
                        let l = choose|l: Label| #[trigger] old(l2s)@.contains_key(l) && old(l2s)@[l] == v;
                        assert(m.contains_key(l) && m[l] == v);
                    } else {
                        assert(m.contains_key(label) && m[label] == v);
                    }
                }
            }
            q
        },
    }
}

proof fn lemma_placed_keep<W>(
    t: Tr<W>,
    reach_input: bool,
    m0: Map<Label, StateId>,
    h0: Seq<bool>,
    m1: Map<Label, StateId>,
    h1: Seq<bool>,
    label: Label,
    r: StateId,
)
    requires
        placed_ok(t, reach_input, m0, h0),
        m0.contains_key(label) ==> m1 == m0 && h1 == h0,
        !m0.contains_key(label) ==> r == h0.len() && m1 == m0.insert(label, r) && h1 == h0.push(true),
    ensures
        placed_ok(t, reach_input, m1, h1),
{
    if !m0.contains_key(label) {
        assert(h1[t.nextstate as int] == h0[t.nextstate as int]);
        assert forall|l: Label| #[trigger] m1.contains_key(l) && t.nextstate == m1[l] implies side_label(t, reach_input)
            == l by {
            if l != label {
                assert(m0.contains_key(l));
            } else {
                assert(t.nextstate < h0.len());
            }
        }
    }
}

/// Label states numbered one to one onto `n..m` are `m - n` labels.
proof fn lemma_label_count(l2s: Map<Label, StateId>, n: int, m: int)
    requires
        n <= m,
        l2s.dom().finite(),
        forall|l: Label| #[trigger] l2s.contains_key(l) ==> n <= l2s[l] < m,
        forall|l1: Label, l2: Label|
            l2s.contains_key(l1) && l2s.contains_key(l2) && #[trigger] l2s[l1] == #[trigger] l2s[l2] ==> l1 == l2,
        forall|v: int| n <= v < m ==> #[trigger] is_label_state(l2s, v),
    ensures
        l2s.dom().len() == m - n,
{
    let f = |l: Label| l2s[l] as int;
    let x = l2s.dom();
    let y = vstd::set_lib::set_int_range(n, m);
    assert(vstd::relations::injective_on(f, x)) by {
        assert forall|l1: Label, l2: Label| x.contains(l1) && x.contains(l2) && #[trigger] f(l1) == #[trigger] f(l2) implies l1
            == l2 by {
            assert(l2s[l1] == l2s[l2]);
        }
    }
    assert(x.map(f) =~= y) by {
        assert forall|v: int| y.contains(v) implies #[trigger] x.map(f).contains(v) by {
            assert(is_label_state(l2s, v));
            let l = choose|l: Label| #[trigger] l2s.contains_key(l) && l2s[l] == v;
            assert(x.contains(l) && f(l) == v);
        }
    }
    vstd::set_lib::lemma_map_size(x, y, f);
    vstd::set_lib::lemma_int_range(n, m);
}

/// Transformed rows stay the same when the label map only gains labels that
/// the row does not use.
proof fn lemma_row_stable<W: Semiring>(
    f: FstView<W>,
    reach_input: bool,
    m0: Map<Label, StateId>,
    m1: Map<Label, StateId>,
    q: int,
)
    requires
        0 <= q < f.trs.len(),
        forall|l: Label| #[trigger] m0.contains_key(l) ==> m1.contains_key(l) && m1[l] == m0[l],
        forall|k: int|
            0 <= k < f.trs[q].len() && side_label(#[trigger] f.trs[q][k], reach_input) != EPS_LABEL
                ==> m0.contains_key(side_label(f.trs[q][k], reach_input)),
        f.finals[q] != W::zero_spec() ==> m0.contains_key(NO_LABEL),
    ensures
        transformed_row(f, reach_input, m1, q) == transformed_row(f, reach_input, m0, q),
{
    let r0 = f.trs[q].map_values(|t: Tr<W>| redirected(t, reach_input, m0));
    let r1 = f.trs[q].map_values(|t: Tr<W>| redirected(t, reach_input, m1));
    assert forall|k: int| 0 <= k < r1.len() implies r1[k] == r0[k] by {
        let t = f.trs[q][k];
        if side_label(t, reach_input) != EPS_LABEL {
            assert(m0.contains_key(side_label(f.trs[q][k], reach_input)));
        }
    }
    assert(r1 =~= r0);
}

/// The FST transformed for label reachability, and the state of each label:
/// each labelled transition is sent to the new final state of its label, each
/// final weight becomes a `NO_LABEL` transition to the state of `NO_LABEL`,
/// and a new start state has an epsilon transition to every state that no
/// transition enters.
fn transform_fst<W: Semiring>(fst: &VectorFst<W>, reach_input: bool) -> (r: (VectorFst<W>, HashMap<Label, StateId>))
    requires
        fst@.wf(),
    ensures
        r.0@.wf(),
        transformed(graph_of(r.0@, reach_input), finals_of(r.0@), r.1@, fst@.num_states()),
        is_transform(fst@, reach_input, r.0@, r.1@),
{
    let ghost f = fst@;
    let ins = fst.num_states();
    let mut l2s: HashMap<Label, StateId> = HashMap::new();
    let mut has_in: Vec<bool> = Vec::new();
    let mut k: usize = 0;
    while k < ins
        invariant
            0 <= k <= ins,
            has_in@.len() == k,
            forall|q: int| 0 <= q < k ==> !has_in@[q],
        decreases ins - k,
    {
        has_in.push(false);
        k = k + 1;
    }
    let mut rows: Vec<Vec<Tr<W>>> = Vec::new();
    let mut fins: Vec<W> = Vec::new();
    let mut s: usize = 0;
    while s < ins
        invariant
            fst@.wf(),
            ins == fst@.num_states(),
            0 <= s <= ins,
            rows@.len() == s,
            fins@.len() == s,
            label_states_ok(l2s@, has_in@, ins as nat),
            forall|q: int| 0 <= q < s ==> fins@[q] == W::zero_spec(),
            forall|q: int, i: int|
                0 <= q < s && 0 <= i < rows@[q]@.len() ==> #[trigger] placed_ok(rows@[q]@[i], reach_input, l2s@, has_in@),
            f == fst@,
            forall|l: Label|
                #[trigger] l2s@.contains_key(l) <==> label_seen(f, reach_input, s as int, 0, l) || (l == NO_LABEL
                    && final_seen(f, s as int)),
            forall|q: int| 0 <= q < s ==> #[trigger] rows@[q]@ == transformed_row(f, reach_input, l2s@, q),
            forall|v: int|
                0 <= v < has_in@.len() && #[trigger] has_in@[v] ==> exists|q: int, k: int|
                    0 <= q < s && 0 <= k < rows@[q]@.len() && (#[trigger] rows@[q]@[k]).nextstate == v,
        decreases ins - s,
    {
        let trs = fst.get_trs(s).unwrap();
        let mut row: Vec<Tr<W>> = Vec::new();
        let mut i: usize = 0;
        while i < trs.len()
            invariant
                fst@.wf(),
                ins == fst@.num_states(),
                s < ins,
                trs@ == fst@.trs[s as int],
                0 <= i <= trs.len(),
                rows@.len() == s,
                label_states_ok(l2s@, has_in@, ins as nat),
                forall|q: int, j: int|
                    0 <= q < s && 0 <= j < rows@[q]@.len() ==> #[trigger] placed_ok(rows@[q]@[j], reach_input, l2s@, has_in@),
                forall|j: int| 0 <= j < row@.len() ==> #[trigger] placed_ok(row@[j], reach_input, l2s@, has_in@),
                f == fst@,
                forall|l: Label|
                    #[trigger] l2s@.contains_key(l) <==> label_seen(f, reach_input, s as int, i as int, l) || (l
                        == NO_LABEL && final_seen(f, s as int)),
                forall|q: int| 0 <= q < s ==> #[trigger] rows@[q]@ == transformed_row(f, reach_input, l2s@, q),
                row@.len() == i,
                forall|k: int| 0 <= k < i ==> #[trigger] row@[k] == redirected(trs@[k], reach_input, l2s@),
                forall|v: int|
                    0 <= v < has_in@.len() && #[trigger] has_in@[v] ==> (exists|q: int, k: int|
                        0 <= q < s && 0 <= k < rows@[q]@.len() && (#[trigger] rows@[q]@[k]).nextstate == v) || (exists|
                        k: int,
                    |
                        0 <= k < row@.len() && (#[trigger] row@[k]).nextstate == v),
            decreases trs.len() - i,
        {
            let t = trs[i];
            let label = if reach_input {
                t.ilabel
            } else {
                t.olabel
            };
            let ghost m0 = l2s@;
            let ghost h0 = has_in@;
            let mut nt = t;
            if label != EPS_LABEL {
                let q = state_for_label(&mut l2s, &mut has_in, label, ins);
                nt = Tr { ilabel: t.ilabel, olabel: t.olabel, weight: t.weight, nextstate: q };
                proof {
                    assert forall|q2: int, j: int|
                        0 <= q2 < s && 0 <= j < rows@[q2]@.len() implies #[trigger] placed_ok(
                        rows@[q2]@[j],
                        reach_input,
                        l2s@,
                        has_in@,
                    ) by {
                        lemma_placed_keep(rows@[q2]@[j], reach_input, m0, h0, l2s@, has_in@, label, q);
                    }
                    assert forall|j: int| 0 <= j < row@.len() implies #[trigger] placed_ok(
                        row@[j],
                        reach_input,
                        l2s@,
                        has_in@,
                    ) by {
                        lemma_placed_keep(row@[j], reach_input, m0, h0, l2s@, has_in@, label, q);
                    }
                }
            } else {
                assert(t.nextstate < ins);
                let ghost h1 = has_in@;
                has_in.set(t.nextstate, true);
                proof {
                    assert forall|l: Label| #[trigger] l2s@.contains_key(l) implies ins <= l2s@[l] < has_in@.len()
                        && has_in@[l2s@[l] as int] by {
                        assert(h1[l2s@[l] as int]);
                    }
                    assert forall|q2: int, j: int|
                        0 <= q2 < s && 0 <= j < rows@[q2]@.len() implies #[trigger] placed_ok(
                        rows@[q2]@[j],
                        reach_input,
                        l2s@,
                        has_in@,
                    ) by {
                        assert(placed_ok(rows@[q2]@[j], reach_input, l2s@, h1));
                    }
                    assert forall|j: int| 0 <= j < row@.len() implies #[trigger] placed_ok(
                        row@[j],
                        reach_input,
                        l2s@,
                        has_in@,
                    ) by {
                        assert(placed_ok(row@[j], reach_input, l2s@, h1));
                    }
                    assert forall|l: Label| #[trigger] l2s@.contains_key(l) && nt.nextstate == l2s@[l] implies side_label(
                        nt,
                        reach_input,
                    ) == l by {
                        assert(l2s@[l] >= ins);
                    }
                }
            }
            let ghost row0 = row@;
            row.push(nt);
            proof {
                assert(row@[row@.len() - 1].nextstate == nt.nextstate);
                assert forall|v: int| 0 <= v < has_in@.len() && #[trigger] has_in@[v] implies (exists|q: int, k: int|
                    0 <= q < s && 0 <= k < rows@[q]@.len() && (#[trigger] rows@[q]@[k]).nextstate == v) || (exists|
                    k: int,
                |
                    0 <= k < row@.len() && (#[trigger] row@[k]).nextstate == v) by {
                    if v == nt.nextstate {
                        assert(row@[row@.len() - 1].nextstate == v);
                    } else {
                        assert(v < h0.len() && h0[v]);
                        if exists|k: int| 0 <= k < row0.len() && (#[trigger] row0[k]).nextstate == v {
                            let k = choose|k: int| 0 <= k < row0.len() && (#[trigger] row0[k]).nextstate == v;
                            assert(row@[k] == row0[k]);
                        }
                    }
                }
                assert forall|j: int| 0 <= j < row@.len() implies #[trigger] placed_ok(row@[j], reach_input, l2s@, has_in@) by {
                    if j < row@.len() - 1 {
                        assert(placed_ok(row@[j], reach_input, l2s@, has_in@));
                    }
                }
                assert(side_label(t, reach_input) == label);
                assert forall|l: Label| #[trigger] m0.contains_key(l) implies l2s@.contains_key(l) && l2s@[l] == m0[l] by {
                }
                assert forall|q: int| 0 <= q < s implies #[trigger] rows@[q]@ == transformed_row(f, reach_input, l2s@, q) by {
                    assert forall|k: int|
                        0 <= k < f.trs[q].len() && side_label(#[trigger] f.trs[q][k], reach_input) != EPS_LABEL
                            implies m0.contains_key(side_label(f.trs[q][k], reach_input)) by {
                        assert(label_seen(f, reach_input, s as int, (i - 1) as int, side_label(f.trs[q][k], reach_input)));
                    }
                    assert(f.finals[q] != W::zero_spec() ==> final_seen(f, s as int));
                    lemma_row_stable(f, reach_input, m0, l2s@, q);
                }
                assert forall|k: int| 0 <= k < i + 1 implies #[trigger] row@[k] == redirected(trs@[k], reach_input, l2s@) by {
                    if k < i {
                        assert(row@[k] == row0[k]);
                        let tk = trs@[k];
                        if side_label(tk, reach_input) != EPS_LABEL {
                            assert(label_seen(f, reach_input, s as int, i as int, side_label(tk, reach_input)));
                        }
                    }
                }
                assert forall|l: Label|
                    #[trigger] l2s@.contains_key(l) <==> label_seen(f, reach_input, s as int, i + 1, l) || (l == NO_LABEL
                        && final_seen(f, s as int)) by {
                    if label_seen(f, reach_input, s as int, i + 1, l) && !label_seen(f, reach_input, s as int, i as int, l) {
                        let k = choose|k: int| 0 <= k < i + 1 && side_label(#[trigger] f.trs[s as int][k], reach_input) == l;
                        assert(k == i);
                    }
                    if label_seen(f, reach_input, s as int, i as int, l) {
                        if exists|k: int| 0 <= k < i && side_label(#[trigger] f.trs[s as int][k], reach_input) == l {
                            let k = choose|k: int| 0 <= k < i && side_label(#[trigger] f.trs[s as int][k], reach_input) == l;
                            assert(0 <= k < i + 1 && side_label(f.trs[s as int][k], reach_input) == l);
                        }
                    }
                }
            }
            i = i + 1;
        }
        let w = fst.final_weight(s).unwrap();
        if !w.is_zero() {
            let ghost m0 = l2s@;
            let ghost h0 = has_in@;
            let q = state_for_label(&mut l2s, &mut has_in, NO_LABEL, ins);
            proof {
                assert forall|q2: int, j: int|
                    0 <= q2 < s && 0 <= j < rows@[q2]@.len() implies #[trigger] placed_ok(
                    rows@[q2]@[j],
                    reach_input,
                    l2s@,
                    has_in@,
                ) by {
                    lemma_placed_keep(rows@[q2]@[j], reach_input, m0, h0, l2s@, has_in@, NO_LABEL, q);
                }
                assert forall|j: int| 0 <= j < row@.len() implies #[trigger] placed_ok(row@[j], reach_input, l2s@, has_in@) by {
                    lemma_placed_keep(row@[j], reach_input, m0, h0, l2s@, has_in@, NO_LABEL, q);
                }
            }
            let ghost row0 = row@;
            row.push(Tr { ilabel: NO_LABEL, olabel: NO_LABEL, weight: w, nextstate: q });
            proof {
                assert forall|v: int| 0 <= v < has_in@.len() && #[trigger] has_in@[v] implies (exists|q2: int, k: int|
                    0 <= q2 < s && 0 <= k < rows@[q2]@.len() && (#[trigger] rows@[q2]@[k]).nextstate == v) || (exists|
                    k: int,
                |
                    0 <= k < row@.len() && (#[trigger] row@[k]).nextstate == v) by {
                    if v == q {
                        assert(row@[row@.len() - 1].nextstate == v);
                    } else {
                        assert(v < h0.len() && h0[v]);
                        if exists|k: int| 0 <= k < row0.len() && (#[trigger] row0[k]).nextstate == v {
                            let k = choose|k: int| 0 <= k < row0.len() && (#[trigger] row0[k]).nextstate == v;
                            assert(row@[k] == row0[k]);
                        }
                    }
                }
                assert forall|j: int| 0 <= j < row@.len() implies #[trigger] placed_ok(row@[j], reach_input, l2s@, has_in@) by {
                    if j < row@.len() - 1 {
                        assert(placed_ok(row@[j], reach_input, l2s@, has_in@));
                    }
                }
            }
        }
        let ghost rows0 = rows@;
        rows.push(row);
        fins.push(W::zero());
        proof {
            assert forall|q: int, i: int|
                0 <= q < s + 1 && 0 <= i < rows@[q]@.len() implies #[trigger] placed_ok(rows@[q]@[i], reach_input, l2s@, has_in@) by {
            }
            assert forall|v: int| 0 <= v < has_in@.len() && #[trigger] has_in@[v] implies exists|q: int, k: int|
                0 <= q < s + 1 && 0 <= k < rows@[q]@.len() && (#[trigger] rows@[q]@[k]).nextstate == v by {
                if exists|k: int| 0 <= k < row@.len() && (#[trigger] row@[k]).nextstate == v {
                    let k = choose|k: int| 0 <= k < row@.len() && (#[trigger] row@[k]).nextstate == v;
                    assert(rows@[s as int]@[k].nextstate == v);
                } else {
                    let (q, k) = choose|q: int, k: int|
                        0 <= q < s && 0 <= k < rows0[q]@.len() && (#[trigger] rows0[q]@[k]).nextstate == v;
                    assert(rows@[q] == rows0[q]);
                }
            }
        }
        s = s + 1;
    }
    // The label states: final, without transitions.
    let ons = has_in.len();
    while rows.len() < ons
        invariant
            ins <= rows@.len() <= ons,
            ons == has_in@.len(),
            rows@.len() == fins@.len(),
            label_states_ok(l2s@, has_in@, ins as nat),
            forall|q: int| 0 <= q < ins ==> fins@[q] == W::zero_spec(),
            forall|q: int| ins <= q < rows@.len() ==> #[trigger] fins@[q] == W::one_spec(),
            forall|q: int| ins <= q < rows@.len() ==> (#[trigger] rows@[q])@.len() == 0,
            forall|q: int, i: int|
                0 <= q < ins && 0 <= i < rows@[q]@.len() ==> #[trigger] placed_ok(rows@[q]@[i], reach_input, l2s@, has_in@),
            f == fst@,
            ins == f.num_states(),
            forall|l: Label|
                #[trigger] l2s@.contains_key(l) <==> label_seen(f, reach_input, ins as int, 0, l) || (l == NO_LABEL
                    && final_seen(f, ins as int)),
            forall|q: int| 0 <= q < ins ==> #[trigger] rows@[q]@ == transformed_row(f, reach_input, l2s@, q),
            forall|v: int|
                0 <= v < has_in@.len() && #[trigger] has_in@[v] ==> exists|q: int, k: int|
                    0 <= q < ins && 0 <= k < rows@[q]@.len() && (#[trigger] rows@[q]@[k]).nextstate == v,
        decreases ons - rows@.len(),
    {
        let ghost r0 = rows@;
        let ghost f0 = fins@;
        rows.push(Vec::new());
        fins.push(W::one());
        proof {
            assert forall|q: int| ins <= q < rows@.len() implies #[trigger] fins@[q] == W::one_spec() && rows@[q]@.len()
                == 0 by {
                if q < r0.len() {
                    assert(rows@[q] == r0[q]);
                    assert(fins@[q] == f0[q]);
                } else {
                    assert(rows@[q]@ == Seq::<Tr<W>>::empty());
                }
            }
            assert forall|q: int, i: int|
                0 <= q < ins && 0 <= i < rows@[q]@.len() implies #[trigger] placed_ok(rows@[q]@[i], reach_input, l2s@, has_in@) by {
                assert(rows@[q] == r0[q]);
            }
            assert forall|q: int| 0 <= q < ins implies #[trigger] rows@[q]@ == transformed_row(f, reach_input, l2s@, q) by {
                assert(rows@[q] == r0[q]);
            }
            assert forall|v: int| 0 <= v < has_in@.len() && #[trigger] has_in@[v] implies exists|q: int, k: int|
                0 <= q < ins && 0 <= k < rows@[q]@.len() && (#[trigger] rows@[q]@[k]).nextstate == v by {
                let (q, k) = choose|q: int, k: int|
                    0 <= q < ins && 0 <= k < r0[q]@.len() && (#[trigger] r0[q]@[k]).nextstate == v;
                assert(rows@[q] == r0[q]);
            }
        }
    }
    // The new start state.
    let ghost rows1 = rows@;
    let mut srow: Vec<Tr<W>> = Vec::new();
    let mut u: usize = 0;
    while u < ons
        invariant
            0 <= u <= ons,
            ons == has_in@.len(),
            forall|j: int|
                0 <= j < srow@.len() ==> (#[trigger] srow@[j]).nextstate < ons && !has_in@[srow@[j].nextstate as int]
                    && srow@[j].ilabel == EPS_LABEL && srow@[j].olabel == EPS_LABEL && srow@[j].weight == W::one_spec(),
            forall|v: int|
                0 <= v < u && !#[trigger] has_in@[v] ==> exists|j: int|
                    0 <= j < srow@.len() && (#[trigger] srow@[j]).nextstate == v,
        decreases ons - u,
    {
        let ghost s0 = srow@;
        if !has_in[u] {
            srow.push(Tr { ilabel: EPS_LABEL, olabel: EPS_LABEL, weight: W::one(), nextstate: u });
            proof {
                assert(srow@[srow@.len() - 1].nextstate == u);
            }
        }
        proof {
            assert forall|v: int| 0 <= v < u + 1 && !#[trigger] has_in@[v] implies exists|j: int|
                0 <= j < srow@.len() && (#[trigger] srow@[j]).nextstate == v by {
                if v < u {
                    let j = choose|j: int| 0 <= j < s0.len() && (#[trigger] s0[j]).nextstate == v;
                    assert(srow@[j] == s0[j]);
                } else {
                    assert(srow@[srow@.len() - 1].nextstate == u);
                }
            }
        }
        u = u + 1;
    }
    rows.push(srow);
    fins.push(W::zero());
    let ghost fv = FstView { start: Some(ons), finals: fins@, trs: rows@.map_values(|v: Vec<Tr<W>>| v@) };
    let ghost g = graph_of(fv, reach_input);
    proof {
        W::lemma_one_ne_zero();
        assert(fv.trs.len() == ons + 1);
        assert forall|q: int, i: int| 0 <= q < fv.trs.len() && 0 <= i < fv.trs[q].len() implies #[trigger] fv.trs[q][i].nextstate
            < fv.trs.len() by {
            if q < ins {
                assert(placed_ok(rows@[q]@[i], reach_input, l2s@, has_in@));
            }
        }
        assert(fv.wf());
        let l2 = l2s@;
        let fs = finals_of(fv);
        assert forall|u2: int, i: int| 0 <= u2 < g.len() && 0 <= i < g[u2].len() implies (#[trigger] g[u2][i]).1 < g.len()
            && (g[u2][i].0 != EPS_LABEL ==> l2.contains_key(g[u2][i].0) && g[u2][i].1 == l2[g[u2][i].0]) by {
            assert(g[u2][i] == (side_label(fv.trs[u2][i], reach_input), fv.trs[u2][i].nextstate));
            if u2 < ins {
                assert(placed_ok(rows@[u2]@[i], reach_input, l2s@, has_in@));
            }
        }
        assert forall|l: Label| #[trigger] l2.contains_key(l) implies ins <= l2[l] < g.len() && fs.contains(l2[l] as int)
            && g[l2[l] as int].len() == 0 by {
            assert(rows@[l2[l] as int]@.len() == 0);
        }
        assert forall|u2: int, i: int, l: Label|
            0 <= u2 < g.len() && 0 <= i < g[u2].len() && l2.contains_key(l) && (#[trigger] g[u2][i]).1 == #[trigger] l2[l]
                implies g[u2][i].0 == l by {
            assert(g[u2][i] == (side_label(fv.trs[u2][i], reach_input), fv.trs[u2][i].nextstate));
            if u2 < ins {
                assert(placed_ok(rows@[u2]@[i], reach_input, l2s@, has_in@));
            } else if u2 == ons {
                assert(!has_in@[srow@[i].nextstate as int]);
            } else {
                assert(rows@[u2]@.len() == 0);
            }
        }
        assert forall|u2: int| #[trigger] fs.contains(u2) implies exists|l: Label| l2.contains_key(l) && l2[l] == u2 by {
            assert(ins <= u2 < ons);
            assert(is_label_state(l2, u2));
        }
        let m = ons as int;
        assert forall|v: int| 0 <= v < m implies (#[trigger] has_incoming(fv, m, v) <==> has_in@[v]) by {
            if has_in@[v] {
                let (q, k) = choose|q: int, k: int|
                    0 <= q < ins && 0 <= k < rows1[q]@.len() && (#[trigger] rows1[q]@[k]).nextstate == v;
                assert(fv.trs[q][k] == rows1[q]@[k]);
            }
            if has_incoming(fv, m, v) {
                let (q, k) = choose|q: int, k: int|
                    0 <= q < m && 0 <= k < fv.trs[q].len() && (#[trigger] fv.trs[q][k]).nextstate == v;
                assert(fv.trs[q] == rows1[q]@);
                assert(q < ins);
                assert(placed_ok(rows1[q]@[k], reach_input, l2s@, has_in@));
            }
        }
        assert forall|q: int| 0 <= q < ins implies #[trigger] fv.trs[q] == transformed_row(f, reach_input, l2, q)
            && fv.finals[q] == W::zero_spec() by {
            assert(fv.trs[q] == rows1[q]@);
        }
        assert forall|l: Label| #[trigger] l2.contains_key(l) implies fv.finals[l2[l] as int] == W::one_spec()
            && fv.trs[l2[l] as int].len() == 0 by {
            assert(fv.trs[l2[l] as int] == rows1[l2[l] as int]@);
        }
        assert forall|j: int| 0 <= j < fv.trs[m].len() implies (#[trigger] fv.trs[m][j]).ilabel == EPS_LABEL
            && fv.trs[m][j].olabel == EPS_LABEL && fv.trs[m][j].weight == W::one_spec() && fv.trs[m][j].nextstate < m
            && !has_incoming(fv, m, fv.trs[m][j].nextstate as int) by {
            assert(fv.trs[m] == srow@);
        }
        assert forall|u2: int| 0 <= u2 < m && !#[trigger] has_incoming(fv, m, u2) implies exists|j: int|
            0 <= j < fv.trs[m].len() && (#[trigger] fv.trs[m][j]).nextstate == u2 by {
            assert(fv.trs[m] == srow@);
            assert(!has_in@[u2]);
        }
        lemma_label_count(l2, ins as int, m);
        assert(is_transform(f, reach_input, fv, l2));
    }
    (VectorFst::from_parts(Some(ons), fins, rows), l2s)
}

pub struct LabelReachable {
    data: LabelReachableData,
    reach_fst_input: bool,
    graph: Ghost<LabelGraph>,
    final_states: Ghost<Set<int>>,
}

impl LabelReachable {
    /// Edges of the transformed FST the index was built on.
    pub closed spec fn graph(&self) -> LabelGraph {
        self.graph@
    }

    /// Final states of the transformed FST.
    pub closed spec fn finals(&self) -> Set<int> {
        self.final_states@
    }

    /// State of each label in the transformed FST.
    pub closed spec fn label_states(&self) -> Map<Label, StateId> {
        self.data.label2index@
    }

    /// Number of states of the FST the index was built on.
    pub closed spec fn num_states(&self) -> nat {
        self.data.interval_sets@.len()
    }

    pub closed spec fn reach_input_spec(&self) -> bool {
        self.data.reach_input
    }

    /// The side `reach_init` was last called with.
    pub closed spec fn init_side(&self) -> bool {
        self.reach_fst_input
    }

    pub closed spec fn wf(&self) -> bool {
        &&& transformed(self.graph(), self.finals(), self.label_states(), self.num_states())
        &&& self.graph().len() <= usize::MAX
        &&& self.data.final_label == (if self.label_states().contains_key(NO_LABEL) {
            self.label_states()[NO_LABEL]
        } else {
            NO_LABEL
        })
        &&& forall|s: int| 0 <= s < self.num_states() ==> (#[trigger] self.data.interval_sets@[s]).wf()
        &&& forall|s: int, x: int|
            0 <= s < self.num_states() ==> (#[trigger] self.data.interval_sets@[s].contains(x) <==> 0 <= x
                < self.graph().len() && reachable(self.graph(), s, x))
    }

    /// The index of `fst` for input labels (`reach_input`) or output labels.
    pub fn new<W: Semiring>(fst: VectorFst<W>, reach_input: bool) -> (r: Result<Self, FstError>)
        requires
            fst@.wf(),
        ensures
            r matches Ok(lr) && lr.wf() && lr.num_states() == fst@.num_states() && lr.reach_input_spec()
                == reach_input && exists|t: FstView<W>|
                is_transform(fst@, reach_input, t, lr.label_states()) && lr.graph() == graph_of(t, reach_input)
                    && lr.finals() == finals_of(t),
    {
        let nstates = fst.num_states();
        let (g, l2s) = transform_fst(&fst, reach_input);
        let mut lr = LabelReachable {
            data: LabelReachableData::new(reach_input),
            reach_fst_input: false,
            graph: Ghost(graph_of(g@, reach_input)),
            final_states: Ghost(finals_of(g@)),
        };
        let ghost l2 = l2s@;
        lr.find_intervals(&g, nstates, l2s);
        assert(is_transform(fst@, reach_input, g@, lr.label_states()));
        Ok(lr)
    }

    /// Fills the interval set of each of the `ins` input states of the
    /// transformed FST `fst`, and the label and final indices.
    fn find_intervals<W: Semiring>(&mut self, fst: &VectorFst<W>, ins: StateId, l2s: HashMap<Label, StateId>)
        requires
            fst@.wf(),
            old(self).graph() == graph_of(fst@, old(self).data.reach_input),
            old(self).finals() == finals_of(fst@),
            transformed(old(self).graph(), old(self).finals(), l2s@, ins as nat),
        ensures
            final(self).wf(),
            final(self).num_states() == ins,
            final(self).reach_input_spec() == old(self).reach_input_spec(),
            final(self).graph() == old(self).graph(),
            final(self).finals() == old(self).finals(),
            final(self).label_states() == l2s@,
            final(self).init_side() == old(self).init_side(),
    {
        let ghost g = self.graph();
        let n = fst.num_states();
        let mut sets: Vec<IntervalSet> = Vec::new();
        let mut s: usize = 0;
        while s < ins
            invariant
                fst@.wf(),
                g == graph_of(fst@, self.data.reach_input),
                g.len() == n,
                n == fst@.num_states(),
                ins <= n,
                0 <= s <= ins,
                sets@.len() == s,
                forall|q: int| 0 <= q < s ==> (#[trigger] sets@[q]).wf(),
                forall|q: int, x: int|
                    0 <= q < s ==> (#[trigger] sets@[q].contains(x) <==> 0 <= x < g.len() && reachable(g, q, x)),
            decreases ins - s,
        {
            let flags = reachable_from(fst, s, self.data.reach_input);
            sets.push(IntervalSet::from_flags(&flags));
            s = s + 1;
        }
        self.data.final_label = match l2s.get(&NO_LABEL) {
            Some(q) => *q,
            None => NO_LABEL,
        };
        self.data.label2index = l2s;
        self.data.interval_sets = sets;
    }

    pub fn reach_input(&self) -> (r: bool)
        ensures
            r == self.reach_input_spec(),
    {
        self.data.reach_input
    }

    /// Prepares queries against `fst`, whose transitions must be sorted on the
    /// matched side; fails with `NotSorted` otherwise.
    pub fn reach_init<W: Semiring>(&mut self, fst: &VectorFst<W>, reach_input: bool) -> (r: Result<(), FstError>)
        requires
            old(self).wf(),
            fst@.wf(),
        ensures
            final(self).wf(),
            final(self).graph() == old(self).graph(),
            final(self).finals() == old(self).finals(),
            final(self).label_states() == old(self).label_states(),
            final(self).num_states() == old(self).num_states(),
            final(self).reach_input_spec() == old(self).reach_input_spec(),
            final(self).init_side() == reach_input,
            r is Ok <==> label_sorted(fst@, reach_input),
            r is Err ==> r == Err::<(), FstError>(FstError::NotSorted),
    {
        self.reach_fst_input = reach_input;
        if !is_label_sorted(fst, reach_input) {
            return Err(FstError::NotSorted);
        }
        Ok(())
    }

    /// Whether some path from state `s` reaches label `label` (see
    /// `lemma_reach_label_path`); epsilon is never reached.
    pub fn reach_label(&self, s: StateId, label: Label) -> (r: Result<bool, FstError>)
        requires
            self.wf(),
        ensures
            label == EPS_LABEL ==> r == Ok::<bool, FstError>(false),
            label != EPS_LABEL && s >= self.num_states() ==> r == Err::<bool, FstError>(FstError::InvalidState),
            label != EPS_LABEL && s < self.num_states() ==> r == Ok::<bool, FstError>(
                self.label_states().contains_key(label) && reachable(
                    self.graph(),
                    s as int,
                    self.label_states()[label] as int,
                ),
            ),
    {
        if label == EPS_LABEL {
            return Ok(false);
        }
        let iv = match self.data.interval_set(s) {
            Ok(iv) => iv,
            Err(e) => {
                return Err(e);
            },
        };
        match self.data.label2index.get(&label) {
            Some(i) => {
                proof {
                    assert(*i < self.graph().len());
                }
                Ok(iv.member(*i))
            },
            None => Ok(false),
        }
    }

    /// Whether a final state can be reached from state `s`.
    pub fn reach_final(&self, s: StateId) -> (r: Result<bool, FstError>)
        requires
            self.wf(),
        ensures
            s >= self.num_states() ==> r == Err::<bool, FstError>(FstError::InvalidState),
            s < self.num_states() ==> r == Ok::<bool, FstError>(
                self.label_states().contains_key(NO_LABEL) && reachable(
                    self.graph(),
                    s as int,
                    self.label_states()[NO_LABEL] as int,
                ),
            ),
    {
        let iv = match self.data.interval_set(s) {
            Ok(iv) => iv,
            Err(e) => {
                return Err(e);
            },
        };
        Ok(iv.member(self.data.final_label()))
    }

    /// `reach_final(s)` holds exactly when a path of the transformed FST from
    /// `s` ends in a final state after the `NO_LABEL` transition that stands for
    /// a final weight of the input FST.
    pub proof fn lemma_reach_final_path(&self, s: StateId)
        requires
            self.wf(),
            s < self.num_states(),
        ensures
            (self.label_states().contains_key(NO_LABEL) && reachable(
                self.graph(),
                s as int,
                self.label_states()[NO_LABEL] as int,
            )) <==> path_with_label(self.graph(), self.finals(), s as int, NO_LABEL),
    {
        lemma_label_state_reachable(self.graph(), self.finals(), self.label_states(), self.num_states(), s as int, NO_LABEL);
    }

    /// `reach_label(s, label)` holds exactly when a path of the transformed FST
    /// from `s` to a final state has a transition labelled `label`.
    pub proof fn lemma_reach_label_path(&self, s: StateId, label: Label)
        requires
            self.wf(),
            s < self.num_states(),
            label != EPS_LABEL,
        ensures
            (self.label_states().contains_key(label) && reachable(
                self.graph(),
                s as int,
                self.label_states()[label] as int,
            )) <==> path_with_label(self.graph(), self.finals(), s as int, label),
    {
        lemma_label_state_reachable(self.graph(), self.finals(), self.label_states(), self.num_states(), s as int, label);
    }
}

} // verus!
