//! Lazy composition of two FSTs with the sequence filter.
use vstd::prelude::*;
use vstd::set_lib::{lemma_int_range, lemma_len_subset, set_int_range};
use std::sync::Arc;
use crate::compose_filter::{SequenceComposeFilter, seq_filter};
use crate::fst::{EPS_LABEL, FstError, FstView, Label, StateId, Tr, VectorFst, copy_trs, from_semiring_error, fst_error_of};
use crate::matcher::{GenericMatcher, lemma_matching_complete, lemma_matching_members, matching};
use crate::semiring::Semiring;
use crate::reachability::{edge, graph_of, lemma_reach_step, reach_n, reachable};
use crate::cache::trs_result_view;
use crate::cache::{CacheView, SimpleHashMapCache, cache_extends};
use crate::lazy_fst::{FstOp, FstOp2, LazyFst, state_fails, targets_below};
use crate::state_table::{ComposeStateTuple, FilterState, StateTable, distinct};

verus! {

/// One admitted pairing at a composite state: the labels of the composite
/// transition, the two weights to multiply, and the composite target.
pub struct ComposeMove<W> {
    pub ilabel: Label,
    pub olabel: Label,
    pub w1: W,
    pub w2: W,
    pub next: ComposeStateTuple,
}

/// The second FST moves alone on an input epsilon `tb`.
pub open spec fn b_eps_move<W: Semiring>(t: ComposeStateTuple, fs: FilterState, tb: Tr<W>) -> ComposeMove<W> {
    ComposeMove {
        ilabel: EPS_LABEL,
        olabel: tb.olabel,
        w1: W::one_spec(),
        w2: tb.weight,
        next: ComposeStateTuple { s1: t.s1, s2: tb.nextstate, fs },
    }
}

/// The first FST moves alone on an output epsilon `ta`.
pub open spec fn a_eps_move<W: Semiring>(t: ComposeStateTuple, fs: FilterState, ta: Tr<W>) -> ComposeMove<W> {
    ComposeMove {
        ilabel: ta.ilabel,
        olabel: EPS_LABEL,
        w1: ta.weight,
        w2: W::one_spec(),
        next: ComposeStateTuple { s1: ta.nextstate, s2: t.s2, fs },
    }
}

/// Both FSTs move: the output of `ta` is the input of `tb`.
pub open spec fn pair_move<W: Semiring>(ta: Tr<W>, tb: Tr<W>) -> ComposeMove<W> {
    ComposeMove {
        ilabel: ta.ilabel,
        olabel: tb.olabel,
        w1: ta.weight,
        w2: tb.weight,
        next: ComposeStateTuple { s1: ta.nextstate, s2: tb.nextstate, fs: FilterState::NoMatch },
    }
}

/// Moves of the second FST alone, in its transition order.
pub open spec fn b_eps_moves<W: Semiring>(a: FstView<W>, b: FstView<W>, t: ComposeStateTuple) -> Seq<ComposeMove<W>> {
    match seq_filter(a, t.s1 as int, t.fs, None, Some(EPS_LABEL)) {
        None => Seq::empty(),
        Some(fs) => matching(b.trs[t.s2 as int], EPS_LABEL, true, b.trs[t.s2 as int].len()).map_values(
            |tb: Tr<W>| b_eps_move(t, fs, tb),
        ),
    }
}

/// Moves that start with transition `ta` of the first FST.
pub open spec fn moves_of_tr<W: Semiring>(a: FstView<W>, b: FstView<W>, t: ComposeStateTuple, ta: Tr<W>) -> Seq<
    ComposeMove<W>,
> {
    if ta.olabel == EPS_LABEL {
        match seq_filter(a, t.s1 as int, t.fs, Some(EPS_LABEL), None) {
            None => Seq::empty(),
            Some(fs) => seq![a_eps_move(t, fs, ta)],
        }
    } else {
        matching(b.trs[t.s2 as int], ta.olabel, true, b.trs[t.s2 as int].len()).map_values(
            |tb: Tr<W>| pair_move(ta, tb),
        )
    }
}

/// Moves that start with one of the first `n` transitions of the first FST.
pub open spec fn a_moves<W: Semiring>(a: FstView<W>, b: FstView<W>, t: ComposeStateTuple, n: nat) -> Seq<
    ComposeMove<W>,
>
    decreases n,
{
    if n == 0 {
        Seq::empty()
    } else {
        a_moves(a, b, t, (n - 1) as nat) + moves_of_tr(a, b, t, a.trs[t.s1 as int][n - 1])
    }
}

/// Every admitted pairing at composite state `t`, in the order in which the
/// composition emits them.
pub open spec fn compose_moves<W: Semiring>(a: FstView<W>, b: FstView<W>, t: ComposeStateTuple) -> Seq<
    ComposeMove<W>,
> {
    b_eps_moves(a, b, t) + a_moves(a, b, t, a.trs[t.s1 as int].len())
}

/// Final weight of composite state `t`: zero unless both states are final,
/// else the product of the two final weights.
pub open spec fn compose_final<W: Semiring>(a: FstView<W>, b: FstView<W>, t: ComposeStateTuple) -> Result<W, FstError> {
    let fa = a.finals[t.s1 as int];
    let fb = b.finals[t.s2 as int];
    if fa == W::zero_spec() || fb == W::zero_spec() {
        Ok(W::zero_spec())
    } else {
        match fa.times_spec(fb) {
            Ok(w) => Ok(w),
            Err(e) => Err(fst_error_of(e)),
        }
    }
}

/// `tr` is the composite transition of move `m`, its target numbered by `table`.
pub open spec fn tr_of_move<W: Semiring>(table: Seq<ComposeStateTuple>, tr: Tr<W>, m: ComposeMove<W>) -> bool {
    &&& tr.ilabel == m.ilabel
    &&& tr.olabel == m.olabel
    &&& m.w1.times_spec(m.w2) == Ok::<W, crate::semiring::SemiringError>(tr.weight)
    &&& tr.nextstate < table.len()
    &&& table[tr.nextstate as int] == m.next
}

pub open spec fn trs_of_moves<W: Semiring>(
    table: Seq<ComposeStateTuple>,
    trs: Seq<Tr<W>>,
    ms: Seq<ComposeMove<W>>,
) -> bool {
    &&& trs.len() == ms.len()
    &&& forall|i: int| 0 <= i < trs.len() ==> #[trigger] tr_of_move(table, trs[i], ms[i])
}

/// The product of some move's weights fails with the error that `e` stands for.
pub open spec fn some_move_fails<W: Semiring>(ms: Seq<ComposeMove<W>>, e: FstError) -> bool {
    exists|i: int|
        0 <= i < ms.len() && (#[trigger] ms[i].w1.times_spec(ms[i].w2)) is Err && e == fst_error_of(
            ms[i].w1.times_spec(ms[i].w2)->Err_0,
        )
}

/// `p` is the start of `s`.
pub open spec fn is_prefix<A>(p: Seq<A>, s: Seq<A>) -> bool {
    p.len() <= s.len() && s.subrange(0, p.len() as int) == p
}

/// The composite start tuple, when both operands have a start state.
pub open spec fn start_tuple<W>(a: FstView<W>, b: FstView<W>) -> ComposeStateTuple {
    ComposeStateTuple { s1: a.start->Some_0, s2: b.start->Some_0, fs: FilterState::NoMatch }
}

/// Tuple `k` of `table` is the start tuple or the target of a move of an
/// earlier tuple.
pub open spec fn rooted_at<W: Semiring>(a: FstView<W>, b: FstView<W>, table: Seq<ComposeStateTuple>, k: int) -> bool {
    ||| (a.start is Some && b.start is Some && table[k] == start_tuple(a, b))
    ||| exists|j: int, i: int|
        0 <= j < k && 0 <= i < compose_moves(a, b, table[j]).len() && (#[trigger] compose_moves(a, b, table[j])[i]).next
            == table[k]
}

/// Every tuple of `table` is reached from the start tuple by moves.
pub open spec fn rooted<W: Semiring>(a: FstView<W>, b: FstView<W>, table: Seq<ComposeStateTuple>) -> bool {
    forall|k: int| 0 <= k < table.len() ==> #[trigger] rooted_at(a, b, table, k)
}

/// Table `t2` numbers every tuple as `t1` does, and perhaps more.
pub open spec fn table_extends(t1: Seq<ComposeStateTuple>, t2: Seq<ComposeStateTuple>) -> bool {
    is_prefix(t1, t2)
}

proof fn lemma_table_extends_trans(t1: Seq<ComposeStateTuple>, t2: Seq<ComposeStateTuple>, t3: Seq<ComposeStateTuple>)
    requires
        table_extends(t1, t2),
        table_extends(t2, t3),
    ensures
        table_extends(t1, t3),
{
    assert(t3.subrange(0, t1.len() as int) =~= t3.subrange(0, t2.len() as int).subrange(0, t1.len() as int));
}

/// New ids stay targets of moves when one more target is numbered.
proof fn lemma_growth_step<W>(
    t0: Seq<ComposeStateTuple>,
    t1: Seq<ComposeStateTuple>,
    t2: Seq<ComposeStateTuple>,
    ms: Seq<ComposeMove<W>>,
    idx: int,
    tup: ComposeStateTuple,
)
    requires
        forall|k: int|
            t0.len() <= k < t1.len() ==> exists|i: int| 0 <= i < ms.len() && (#[trigger] ms[i]).next == #[trigger] t1[k],
        t2 == t1 || t2 == t1.push(tup),
        0 <= idx < ms.len(),
        ms[idx].next == tup,
    ensures
        forall|k: int|
            t0.len() <= k < t2.len() ==> exists|i: int| 0 <= i < ms.len() && (#[trigger] ms[i]).next == #[trigger] t2[k],
{
    assert forall|k: int| t0.len() <= k < t2.len() implies exists|i: int|
        0 <= i < ms.len() && (#[trigger] ms[i]).next == #[trigger] t2[k] by {
        if k < t1.len() {
            assert(t2[k] == t1[k]);
            let i = choose|i: int| 0 <= i < ms.len() && (#[trigger] ms[i]).next == t1[k];
            assert(ms[i].next == t2[k]);
        } else {
            assert(ms[idx].next == t2[k]);
        }
    }
}

proof fn lemma_trs_of_moves_extend<W: Semiring>(
    t1: Seq<ComposeStateTuple>,
    t2: Seq<ComposeStateTuple>,
    trs: Seq<Tr<W>>,
    ms: Seq<ComposeMove<W>>,
)
    requires
        table_extends(t1, t2),
        trs_of_moves(t1, trs, ms),
    ensures
        trs_of_moves(t2, trs, ms),
{
    assert forall|i: int| 0 <= i < trs.len() implies #[trigger] tr_of_move(t2, trs[i], ms[i]) by {
        assert(tr_of_move(t1, trs[i], ms[i]));
        assert(t2[trs[i].nextstate as int] == t2.subrange(0, t1.len() as int)[trs[i].nextstate as int]);
    }
}

proof fn lemma_a_moves_prefix<W: Semiring>(a: FstView<W>, b: FstView<W>, t: ComposeStateTuple, i: nat, n: nat)
    requires
        i <= n,
    ensures
        is_prefix(a_moves(a, b, t, i), a_moves(a, b, t, n)),
    decreases n - i,
{
    if i < n {
        lemma_a_moves_prefix(a, b, t, i, (n - 1) as nat);
        let p = a_moves(a, b, t, i);
        let m = a_moves(a, b, t, (n - 1) as nat);
        assert(a_moves(a, b, t, n) == m + moves_of_tr(a, b, t, a.trs[t.s1 as int][n - 1]));
        assert(a_moves(a, b, t, n).subrange(0, p.len() as int) =~= m.subrange(0, p.len() as int));
    } else {
        assert(a_moves(a, b, t, n).subrange(0, a_moves(a, b, t, n).len() as int) =~= a_moves(a, b, t, n));
    }
}

/// A code of a tuple whose states are below `n1` and `n2`, one to one.
spec fn tuple_code(t: ComposeStateTuple, n2: nat) -> int {
    (t.s1 * n2 + t.s2) * 2 + if t.fs == FilterState::NoMatch {
        0int
    } else {
        1int
    }
}

proof fn lemma_tuple_code(t: ComposeStateTuple, u: ComposeStateTuple, n1: nat, n2: nat)
    requires
        t.s1 < n1,
        t.s2 < n2,
        u.s1 < n1,
        u.s2 < n2,
    ensures
        0 <= tuple_code(t, n2) < n1 * n2 * 2,
        tuple_code(t, n2) == tuple_code(u, n2) ==> t == u,
{
    let x = t.s1 * n2 + t.s2;
    let y = u.s1 * n2 + u.s2;
    assert(0 <= x < n1 * n2) by (nonlinear_arith)
        requires
            x == t.s1 * n2 + t.s2,
            t.s1 < n1,
            t.s2 < n2,
    ;
    if tuple_code(t, n2) == tuple_code(u, n2) {
        let ft = if t.fs == FilterState::NoMatch { 0int } else { 1int };
        let fu = if u.fs == FilterState::NoMatch { 0int } else { 1int };
        vstd::arithmetic::div_mod::lemma_fundamental_div_mod_converse(tuple_code(t, n2), 2, x, ft);
        vstd::arithmetic::div_mod::lemma_fundamental_div_mod_converse(tuple_code(t, n2), 2, y, fu);
        vstd::arithmetic::div_mod::lemma_fundamental_div_mod_converse(x, n2 as int, t.s1 as int, t.s2 as int);
        vstd::arithmetic::div_mod::lemma_fundamental_div_mod_converse(x, n2 as int, u.s1 as int, u.s2 as int);
    }
}

/// Distinct tuples with states below `n1` and `n2` number at most `n1 * n2 * 2`.
proof fn lemma_table_bound(v: Seq<ComposeStateTuple>, n1: nat, n2: nat)
    requires
        distinct(v),
        forall|i: int| 0 <= i < v.len() ==> (#[trigger] v[i]).s1 < n1 && v[i].s2 < n2,
    ensures
        v.len() <= n1 * n2 * 2,
{
    let codes = v.map_values(|t: ComposeStateTuple| tuple_code(t, n2));
    assert(codes.no_duplicates()) by {
        assert forall|i: int, j: int| 0 <= i < codes.len() && 0 <= j < codes.len() && i != j implies codes[i]
            != codes[j] by {
            lemma_tuple_code(v[i], v[j], n1, n2);
        }
    }
    codes.unique_seq_to_set();
    let range = set_int_range(0, (n1 * n2 * 2) as int);
    lemma_int_range(0, (n1 * n2 * 2) as int);
    assert(codes.to_set().subset_of(range)) by {
        assert forall|c: int| codes.to_set().contains(c) implies range.contains(c) by {
            let i = choose|i: int| 0 <= i < codes.len() && codes[i] == c;
            lemma_tuple_code(v[i], v[i], n1, n2);
        }
    }
    lemma_len_subset(codes.to_set(), range);
}

/// Options of the composition: the state table to number composite states with.
pub struct ComposeFstOpOptions {
    pub state_table: StateTable,
}

impl ComposeFstOpOptions {
    /// Options with an empty state table.
    pub fn new() -> (r: Self)
        ensures
            r.state_table.wf(),
            r.state_table@ == Seq::<ComposeStateTuple>::empty(),
    {
        ComposeFstOpOptions { state_table: StateTable::new() }
    }
}

/// The composition operator: computes composite states on demand.
pub struct ComposeFstOp<W> {
    matcher1: GenericMatcher<W>,
    matcher2: GenericMatcher<W>,
    filter: SequenceComposeFilter,
    state_table: StateTable,
}

impl<W: Semiring> ComposeFstOp<W> {
    pub closed spec fn fst1(&self) -> FstView<W> {
        self.matcher1.fst_view()
    }

    pub closed spec fn fst2(&self) -> FstView<W> {
        self.matcher2.fst_view()
    }

    pub closed spec fn table(&self) -> Seq<ComposeStateTuple> {
        self.state_table@
    }

    pub closed spec fn op_inv(&self) -> bool {
        &&& self.fst1().wf()
        &&& self.fst2().wf()
        &&& self.matcher2.matches_input()
        &&& self.state_table.wf()
        &&& self.table().len() <= usize::MAX
        &&& forall|i: int|
            0 <= i < self.table().len() ==> (#[trigger] self.table()[i]).s1 < self.fst1().num_states()
                && self.table()[i].s2 < self.fst2().num_states()
    }

    /// Tuples get one id each.
    pub proof fn lemma_table_distinct(&self)
        requires
            self.op_inv(),
        ensures
            distinct(self.table()),
    {
        self.state_table.lemma_wf_distinct();
    }

    /// The operator composing `fst1` with `fst2`. Fails with `InvalidState` when
    /// the given state table holds a tuple whose states do not exist.
    pub fn new(fst1: Arc<VectorFst<W>>, fst2: Arc<VectorFst<W>>, opts: ComposeFstOpOptions) -> (r: Result<
        Self,
        FstError,
    >)
        requires
            (*fst1)@.wf(),
            (*fst2)@.wf(),
            opts.state_table.wf(),
        ensures
            (forall|i: int|
                0 <= i < opts.state_table@.len() ==> (#[trigger] opts.state_table@[i]).s1 < (*fst1)@.num_states()
                    && opts.state_table@[i].s2 < (*fst2)@.num_states()) <==> r is Ok,
            r is Err ==> r == Err::<Self, FstError>(FstError::InvalidState),
            r matches Ok(op) ==> op.op_inv() && op.fst1() == (*fst1)@ && op.fst2() == (*fst2)@ && op.table()
                == opts.state_table@,
    {
        let n1 = fst1.num_states();
        let n2 = fst2.num_states();
        let len = opts.state_table.len();
        let mut i: usize = 0;
        while i < len
            invariant
                0 <= i <= len,
                len == opts.state_table@.len(),
                n1 == (*fst1)@.num_states(),
                n2 == (*fst2)@.num_states(),
                forall|j: int|
                    0 <= j < i ==> (#[trigger] opts.state_table@[j]).s1 < n1 && opts.state_table@[j].s2 < n2,
            decreases len - i,
        {
            let t = opts.state_table.find_tuple(i);
            if t.s1 >= n1 || t.s2 >= n2 {
                return Err(FstError::InvalidState);
            }
            i = i + 1;
        }
        Ok(
            ComposeFstOp {
                matcher1: GenericMatcher::new(fst1, false),
                matcher2: GenericMatcher::new(fst2, true),
                filter: SequenceComposeFilter::new(),
                state_table: opts.state_table,
            },
        )
    }
}

impl<W: Semiring> ComposeFstOp<W> {
    /// Id of tuple `t`, allocating one if it is new.
    fn state_id(&mut self, t: ComposeStateTuple) -> (r: StateId)
        requires
            old(self).op_inv(),
            t.s1 < old(self).fst1().num_states(),
            t.s2 < old(self).fst2().num_states(),
        ensures
            final(self).op_inv(),
            final(self).fst1() == old(self).fst1(),
            final(self).fst2() == old(self).fst2(),
            table_extends(old(self).table(), final(self).table()),
            r < final(self).table().len(),
            final(self).table()[r as int] == t,
            final(self).filter == old(self).filter,
            final(self).table() == old(self).table() || final(self).table() == old(self).table().push(t),
    {
        let r = self.state_table.find_or_insert(t);
        proof {
            let v = old(self).table();
            self.state_table.lemma_wf_distinct();
            if v.contains(t) {
                assert(self.table() == v);
                assert(self.table().subrange(0, v.len() as int) =~= v);
            } else {
                assert(self.table() == v.push(t));
                assert(self.table().subrange(0, v.len() as int) =~= v);
            }
            lemma_table_bound(self.table(), self.fst1().num_states(), self.fst2().num_states());
        }
        let _ = self.state_table.len();
        r
    }
}

proof fn lemma_rooted_keep<W: Semiring>(a: FstView<W>, b: FstView<W>, t1: Seq<ComposeStateTuple>, t2: Seq<ComposeStateTuple>, k: int)
    requires
        table_extends(t1, t2),
        0 <= k < t1.len(),
        rooted_at(a, b, t1, k),
    ensures
        rooted_at(a, b, t2, k),
{
    assert(t2[k] == t2.subrange(0, t1.len() as int)[k]);
    if !(a.start is Some && b.start is Some && t1[k] == start_tuple(a, b)) {
        let (j, i) = choose|j: int, i: int|
            0 <= j < k && 0 <= i < compose_moves(a, b, t1[j]).len() && (#[trigger] compose_moves(a, b, t1[j])[i]).next
                == t1[k];
        assert(t2[j] == t2.subrange(0, t1.len() as int)[j]);
    }
}

proof fn lemma_rooted_after_trs<W: Semiring>(op0: ComposeFstOp<W>, op1: ComposeFstOp<W>, id: StateId)
    requires
        op0.extends_to(&op1),
        op0.trs_growth_ok(&op1, id),
        id < op0.table().len(),
    ensures
        op0.rooted() ==> op1.rooted(),
{
    let (a, b, t1, t2) = (op0.fst1(), op0.fst2(), op0.table(), op1.table());
    if op0.rooted() {
        assert forall|k: int| 0 <= k < t2.len() implies #[trigger] rooted_at(a, b, t2, k) by {
            if k < t1.len() {
                lemma_rooted_keep(a, b, t1, t2, k);
            } else {
                let i = choose|i: int|
                    0 <= i < compose_moves(a, b, t1[id as int]).len() && (#[trigger] compose_moves(a, b, t1[id as int])[i]).next
                        == #[trigger] t2[k];
                assert(t2[id as int] == t2.subrange(0, t1.len() as int)[id as int]);
                assert(compose_moves(a, b, t2[id as int])[i].next == t2[k]);
            }
        }
    }
}

impl<W: Semiring> FstOp<W> for ComposeFstOp<W> {
    open spec fn inv(&self) -> bool {
        self.op_inv()
    }

    open spec fn num_known(&self) -> nat {
        self.table().len()
    }

    open spec fn state_bound(&self) -> nat {
        self.fst1().num_states() * self.fst2().num_states() * 2
    }

    open spec fn extends_to(&self, next: &Self) -> bool {
        &&& self.fst1() == next.fst1()
        &&& self.fst2() == next.fst2()
        &&& table_extends(self.table(), next.table())
    }

    open spec fn rooted(&self) -> bool {
        rooted(self.fst1(), self.fst2(), self.table())
    }

    open spec fn start_growth_ok(&self, next: &Self) -> bool {
        &&& (self.table().len() < next.table().len() ==> self.fst1().start is Some && self.fst2().start is Some)
        &&& forall|k: int|
            self.table().len() <= k < next.table().len() ==> (#[trigger] next.table()[k]).s1 == self.fst1().start->Some_0
                && next.table()[k].s2 == self.fst2().start->Some_0 && next.table()[k].fs == FilterState::NoMatch
    }

    open spec fn trs_growth_ok(&self, next: &Self, id: StateId) -> bool {
        forall|k: int|
            self.table().len() <= k < next.table().len() ==> exists|i: int|
                0 <= i < compose_moves(self.fst1(), self.fst2(), self.table()[id as int]).len() && (#[trigger] compose_moves(
                    self.fst1(),
                    self.fst2(),
                    self.table()[id as int],
                )[i]).next == #[trigger] next.table()[k]
    }

    open spec fn start_ok(&self, r: Result<Option<StateId>, FstError>) -> bool {
        match (self.fst1().start, self.fst2().start) {
            (Some(x), Some(y)) => r matches Ok(Some(id)) && id < self.table().len() && self.table()[id as int]
                == (ComposeStateTuple { s1: x, s2: y, fs: FilterState::NoMatch }),
            _ => r == Ok::<Option<StateId>, FstError>(None),
        }
    }

    open spec fn trs_ok(&self, id: StateId, r: Result<Seq<Tr<W>>, FstError>) -> bool {
        &&& id < self.table().len()
        &&& match r {
            Ok(trs) => trs_of_moves(self.table(), trs, compose_moves(self.fst1(), self.fst2(), self.table()[id as int])),
            Err(e) => some_move_fails(compose_moves(self.fst1(), self.fst2(), self.table()[id as int]), e),
        }
    }

    open spec fn final_ok(&self, id: StateId, r: Result<W, FstError>) -> bool {
        &&& id < self.table().len()
        &&& r == compose_final(self.fst1(), self.fst2(), self.table()[id as int])
    }

    proof fn lemma_extends_refl(&self) {
        assert(self.table().subrange(0, self.table().len() as int) =~= self.table());
    }

    proof fn lemma_extends_trans(&self, b: &Self, c: &Self) {
        let ta = self.table();
        let tb = b.table();
        let tc = c.table();
        assert(tc.subrange(0, ta.len() as int) =~= tc.subrange(0, tb.len() as int).subrange(0, ta.len() as int));
        assert(tb.subrange(0, ta.len() as int) == ta);
    }

    proof fn lemma_extends_keeps(&self, next: &Self) {
        let t1 = self.table();
        let t2 = next.table();
        assert forall|id: StateId| id < t1.len() implies t2[id as int] == t1[id as int] by {
            assert(t2.subrange(0, t1.len() as int)[id as int] == t2[id as int]);
        }
        assert forall|id: StateId, r: Result<Seq<Tr<W>>, FstError>|
            id < self.num_known() && #[trigger] self.trs_ok(id, r) implies next.trs_ok(id, r) by {
            if let Ok(trs) = r {
                lemma_trs_of_moves_extend(t1, t2, trs, compose_moves(self.fst1(), self.fst2(), t1[id as int]));
            }
        }
    }

    proof fn lemma_inv_bound(&self) {
        self.state_table.lemma_wf_distinct();
        lemma_table_bound(self.table(), self.fst1().num_states(), self.fst2().num_states());
    }

    fn num_known_states(&self) -> (r: usize) {
        self.state_table.len()
    }

    fn compute_start(&mut self) -> (r: Result<Option<StateId>, FstError>) {
        proof {
            self.lemma_extends_refl();
        }
        let ghost op0 = *self;
        let s1 = self.matcher1.fst().start();
        let s2 = self.matcher2.fst().start();
        match (s1, s2) {
            (Some(x), Some(y)) => {
                let fs = self.filter.start();
                let id = self.state_id(ComposeStateTuple { s1: x, s2: y, fs });
                proof {
                    let (a, b) = (op0.fst1(), op0.fst2());
                    if op0.rooted() {
                        assert forall|k: int| 0 <= k < self.table().len() implies #[trigger] rooted_at(
                            a,
                            b,
                            self.table(),
                            k,
                        ) by {
                            if k < op0.table().len() {
                                lemma_rooted_keep(a, b, op0.table(), self.table(), k);
                            }
                        }
                    }
                }
                Ok(Some(id))
            },
            _ => Ok(None),
        }
    }

    fn compute_final_weight(&mut self, id: StateId) -> (r: Result<W, FstError>) {
        proof {
            self.lemma_extends_refl();
        }
        let t = self.state_table.find_tuple(id);
        let fa = self.matcher1.fst().final_weight(t.s1).unwrap();
        let fb = self.matcher2.fst().final_weight(t.s2).unwrap();
        if fa.is_zero() || fb.is_zero() {
            return Ok(W::zero());
        }
        match fa.times(&fb) {
            Ok(w) => Ok(w),
            Err(e) => Err(from_semiring_error(e)),
        }
    }

    fn compute_trs(&mut self, id: StateId) -> (r: Result<Vec<Tr<W>>, FstError>) {
        let r = self.expand(id);
        proof {
            lemma_rooted_after_trs(*old(self), *self, id);
        }
        r
    }
}

impl<W: Semiring> ComposeFstOp<W> {
    /// The transitions of state `id`, numbering their targets.
    fn expand(&mut self, id: StateId) -> (r: Result<Vec<Tr<W>>, FstError>)
        requires
            old(self).op_inv(),
            id < old(self).table().len(),
        ensures
            final(self).op_inv(),
            old(self).extends_to(final(self)),
            final(self).trs_ok(id, trs_result_view(r)),
            r matches Ok(v) ==> forall|i: int| 0 <= i < v@.len() ==> (#[trigger] v@[i]).nextstate < final(self).table().len(),
            old(self).trs_growth_ok(final(self), id),
    {
        proof {
            self.lemma_extends_refl();
        }
        let ghost op0 = *self;
        let ghost a = self.fst1();
        let ghost b = self.fst2();
        let t = self.state_table.find_tuple(id);
        assert(t.s1 < a.num_states() && t.s2 < b.num_states());
        let ghost ms = compose_moves(a, b, t);
        let ghost bms = b_eps_moves(a, b, t);
        let ghost btrs = b.trs[t.s2 as int];
        self.filter.set_state(self.matcher1.fst(), t.s1, t.s2, t.fs);
        let mut out: Vec<Tr<W>> = Vec::new();
        let ghost mut done: Seq<ComposeMove<W>> = Seq::empty();
        assert(is_prefix(bms, ms)) by {
            assert(ms.subrange(0, bms.len() as int) =~= bms);
        }
        // The second FST moves alone on input epsilons.
        match self.filter.filter_tr::<W>(None, Some(EPS_LABEL)) {
            Some(fs) => {
                let bm = self.matcher2.iter(t.s2, EPS_LABEL);
                let bm = match bm {
                    Ok(v) => v,
                    Err(e) => {
                        return Err(e);
                    },
                };
                proof {
                    lemma_matching_members(btrs, EPS_LABEL, true, btrs.len());
                }
                let mut j: usize = 0;
                while j < bm.len()
                    invariant
                        self.op_inv(),
                        self.fst1() == a,
                        self.fst2() == b,
                        self.filter.at(a, t.s1 as int, t.fs),
                        table_extends(op0.table(), self.table()),
                        op0 == *old(self),
                        forall|k: int|
                            op0.table().len() <= k < self.table().len() ==> exists|i: int|
                                0 <= i < ms.len() && (#[trigger] ms[i]).next == #[trigger] self.table()[k],
                        a == op0.fst1(),
                        b == op0.fst2(),
                        op0.table()[id as int] == t,
                        id < op0.table().len(),
                        t.s1 < a.num_states(),
                        t.s2 < b.num_states(),
                        btrs == b.trs[t.s2 as int],
                        ms == compose_moves(a, b, t),
                        bms == b_eps_moves(a, b, t),
                        seq_filter(a, t.s1 as int, t.fs, None, Some(EPS_LABEL)) == Some(fs),
                        bm@ == matching(btrs, EPS_LABEL, true, btrs.len()),
                        forall|k: int|
                            0 <= k < bm@.len() ==> exists|q: int| 0 <= q < btrs.len() && btrs[q] == #[trigger] bm@[k],
                        is_prefix(bms, ms),
                        0 <= j <= bm.len(),
                        done == bm@.subrange(0, j as int).map_values(|tb: Tr<W>| b_eps_move(t, fs, tb)),
                        trs_of_moves(self.table(), out@, done),
                    decreases bm.len() - j,
                {
                    let tb = bm[j];
                    let ghost mv = b_eps_move(t, fs, tb);
                    assert(done.push(mv) =~= bm@.subrange(0, j + 1).map_values(|tb: Tr<W>| b_eps_move(t, fs, tb)));
                    assert(ms[done.len() as int] == mv) by {
                        assert(bms[j as int] == mv);
                        assert(ms.subrange(0, bms.len() as int)[j as int] == ms[j as int]);
                    }
                    let w = match W::one().times(&tb.weight) {
                        Ok(w) => w,
                        Err(e) => {
                            proof {
                                assert(ms[done.len() as int].w1.times_spec(ms[done.len() as int].w2) is Err);
                                assert(op0.extends_to(&*self));
                            }
                            return Err(from_semiring_error(e));
                        },
                    };
                    proof {
                        let q = choose|q: int| 0 <= q < btrs.len() && btrs[q] == bm@[j as int];
                        assert(btrs[q].nextstate < b.num_states());
                    }
                    let ghost tab = self.table();
                    assert(done.len() < ms.len());
                    let nid = self.state_id(ComposeStateTuple { s1: t.s1, s2: tb.nextstate, fs });
                    proof {
                        lemma_growth_step(op0.table(), tab, self.table(), ms, done.len() as int, mv.next);
                        lemma_trs_of_moves_extend(tab, self.table(), out@, done);
                        lemma_table_extends_trans(op0.table(), tab, self.table());
                    }
                    out.push(Tr { ilabel: EPS_LABEL, olabel: tb.olabel, weight: w, nextstate: nid });
                    proof {
                        done = done.push(mv);
                        assert(tr_of_move(self.table(), out@[out@.len() - 1], mv));
                        assert forall|i: int| 0 <= i < out@.len() implies #[trigger] tr_of_move(
                            self.table(),
                            out@[i],
                            done[i],
                        ) by {
                            if i < out@.len() - 1 {
                                assert(tr_of_move(self.table(), out@[i], done[i]));
                            }
                        }
                    }
                    j = j + 1;
                }
                proof {
                    assert(bm@.subrange(0, bm@.len() as int) =~= bm@);
                }
            },
            None => {},
        }
        assert(done == bms);
        // Moves that start with a transition of the first FST.
        let trs1 = copy_trs(self.matcher1.fst().get_trs(t.s1).unwrap());
        let ghost atrs = a.trs[t.s1 as int];
        let ghost n = atrs.len();
        let mut i: usize = 0;
        assert(done =~= bms + a_moves(a, b, t, 0));
        while i < trs1.len()
            invariant
                self.op_inv(),
                self.fst1() == a,
                self.fst2() == b,
                self.filter.at(a, t.s1 as int, t.fs),
                table_extends(op0.table(), self.table()),
                op0 == *old(self),
                        forall|k: int|
                            op0.table().len() <= k < self.table().len() ==> exists|i: int|
                                0 <= i < ms.len() && (#[trigger] ms[i]).next == #[trigger] self.table()[k],
                        a == op0.fst1(),
                        b == op0.fst2(),
                op0.table()[id as int] == t,
                id < op0.table().len(),
                t.s1 < a.num_states(),
                t.s2 < b.num_states(),
                btrs == b.trs[t.s2 as int],
                atrs == a.trs[t.s1 as int],
                trs1@ == atrs,
                n == atrs.len(),
                ms == compose_moves(a, b, t),
                bms == b_eps_moves(a, b, t),
                0 <= i <= trs1.len(),
                done == bms + a_moves(a, b, t, i as nat),
                trs_of_moves(self.table(), out@, done),
            decreases trs1.len() - i,
        {
            let ta = trs1[i];
            let ghost base = done;
            let ghost group = moves_of_tr(a, b, t, ta);
            assert(a_moves(a, b, t, (i + 1) as nat) == a_moves(a, b, t, i as nat) + group);
            assert(is_prefix(base + group, ms)) by {
                lemma_a_moves_prefix(a, b, t, (i + 1) as nat, n);
                let big = a_moves(a, b, t, n);
                assert(ms == bms + big);
                assert((base + group) =~= bms + a_moves(a, b, t, (i + 1) as nat));
                assert(ms.subrange(0, (base + group).len() as int) =~= bms + big.subrange(
                    0,
                    a_moves(a, b, t, (i + 1) as nat).len() as int,
                ));
            }
            assert(ta.nextstate < a.num_states());
            if ta.olabel == EPS_LABEL {
                // The first FST moves alone on an output epsilon.
                match self.filter.filter_tr::<W>(Some(EPS_LABEL), None) {
                    Some(fs) => {
                        let ghost mv = a_eps_move(t, fs, ta);
                        assert(group == seq![mv]);
                        assert(ms[done.len() as int] == mv) by {
                            assert((base + group)[base.len() as int] == mv);
                            assert(ms.subrange(0, (base + group).len() as int)[base.len() as int] == ms[base.len() as int]);
                        }
                        let w = match ta.weight.times(&W::one()) {
                            Ok(w) => w,
                            Err(e) => {
                                proof {
                                    assert(ms[done.len() as int].w1.times_spec(ms[done.len() as int].w2) is Err);
                                    assert(op0.extends_to(&*self));
                                }
                                return Err(from_semiring_error(e));
                            },
                        };
                        let ghost tab = self.table();
                        assert(done.len() < ms.len());
                        let nid = self.state_id(ComposeStateTuple { s1: ta.nextstate, s2: t.s2, fs });
                        proof {
                            lemma_growth_step(op0.table(), tab, self.table(), ms, done.len() as int, mv.next);
                            lemma_trs_of_moves_extend(tab, self.table(), out@, done);
                            lemma_table_extends_trans(op0.table(), tab, self.table());
                        }
                        out.push(Tr { ilabel: ta.ilabel, olabel: EPS_LABEL, weight: w, nextstate: nid });
                        proof {
                            done = done.push(mv);
                            assert(done =~= base + group);
                            assert(tr_of_move(self.table(), out@[out@.len() - 1], mv));
                            assert forall|k: int| 0 <= k < out@.len() implies #[trigger] tr_of_move(
                                self.table(),
                                out@[k],
                                done[k],
                            ) by {
                                if k < out@.len() - 1 {
                                    assert(tr_of_move(self.table(), out@[k], done[k]));
                                }
                            }
                        }
                    },
                    None => {
                        assert(group =~= Seq::<ComposeMove<W>>::empty());
                        assert(done =~= base + group);
                    },
                }
            } else {
                // Both FSTs move on a matching label.
                let bm = match self.matcher2.iter(t.s2, ta.olabel) {
                    Ok(v) => v,
                    Err(e) => {
                        return Err(e);
                    },
                };
                proof {
                    lemma_matching_members(btrs, ta.olabel, true, btrs.len());
                }
                let mut k: usize = 0;
                while k < bm.len()
                    invariant
                        self.op_inv(),
                        self.fst1() == a,
                        self.fst2() == b,
                        self.filter.at(a, t.s1 as int, t.fs),
                        table_extends(op0.table(), self.table()),
                        op0 == *old(self),
                        forall|k: int|
                            op0.table().len() <= k < self.table().len() ==> exists|i: int|
                                0 <= i < ms.len() && (#[trigger] ms[i]).next == #[trigger] self.table()[k],
                        a == op0.fst1(),
                        b == op0.fst2(),
                        op0.table()[id as int] == t,
                        id < op0.table().len(),
                        t.s1 < a.num_states(),
                        t.s2 < b.num_states(),
                        ta.nextstate < a.num_states(),
                        ta.olabel != EPS_LABEL,
                        btrs == b.trs[t.s2 as int],
                        ms == compose_moves(a, b, t),
                        bm@ == matching(btrs, ta.olabel, true, btrs.len()),
                        group == bm@.map_values(|tb: Tr<W>| pair_move(ta, tb)),
                        forall|q: int|
                            0 <= q < bm@.len() ==> exists|p: int| 0 <= p < btrs.len() && btrs[p] == #[trigger] bm@[q],
                        is_prefix(base + group, ms),
                        0 <= k <= bm.len(),
                        done == base + bm@.subrange(0, k as int).map_values(|tb: Tr<W>| pair_move(ta, tb)),
                        trs_of_moves(self.table(), out@, done),
                    decreases bm.len() - k,
                {
                    let tb = bm[k];
                    let ghost mv = pair_move(ta, tb);
                    assert(done.push(mv) =~= base + bm@.subrange(0, k + 1).map_values(|tb: Tr<W>| pair_move(ta, tb)));
                    assert(ms[done.len() as int] == mv) by {
                        assert((base + group)[done.len() as int] == mv);
                        assert(ms.subrange(0, (base + group).len() as int)[done.len() as int] == ms[done.len() as int]);
                    }
                    match self.filter.filter_tr::<W>(Some(ta.olabel), Some(tb.ilabel)) {
                        Some(fs) => {
                            assert(fs == FilterState::NoMatch);
                            let w = match ta.weight.times(&tb.weight) {
                                Ok(w) => w,
                                Err(e) => {
                                    proof {
                                        assert(ms[done.len() as int].w1.times_spec(ms[done.len() as int].w2) is Err);
                                        assert(op0.extends_to(&*self));
                                    }
                                    return Err(from_semiring_error(e));
                                },
                            };
                            proof {
                                let p = choose|p: int| 0 <= p < btrs.len() && btrs[p] == bm@[k as int];
                                assert(btrs[p].nextstate < b.num_states());
                            }
                            let ghost tab = self.table();
                            assert(done.len() < ms.len());
                            let nid = self.state_id(ComposeStateTuple { s1: ta.nextstate, s2: tb.nextstate, fs });
                            proof {
                                lemma_growth_step(op0.table(), tab, self.table(), ms, done.len() as int, mv.next);
                                lemma_trs_of_moves_extend(tab, self.table(), out@, done);
                                lemma_table_extends_trans(op0.table(), tab, self.table());
                            }
                            out.push(Tr { ilabel: ta.ilabel, olabel: tb.olabel, weight: w, nextstate: nid });
                            proof {
                                done = done.push(mv);
                                assert(tr_of_move(self.table(), out@[out@.len() - 1], mv));
                                assert forall|q: int| 0 <= q < out@.len() implies #[trigger] tr_of_move(
                                    self.table(),
                                    out@[q],
                                    done[q],
                                ) by {
                                    if q < out@.len() - 1 {
                                        assert(tr_of_move(self.table(), out@[q], done[q]));
                                    }
                                }
                            }
                        },
                        None => {
                            assert(false);
                        },
                    }
                    k = k + 1;
                }
                proof {
                    assert(bm@.subrange(0, bm@.len() as int) =~= bm@);
                    assert(done == base + group);
                }
            }
            i = i + 1;
        }
        proof {
            assert(a_moves(a, b, t, n) == a_moves(a, b, t, i as nat));
            assert forall|q: int| 0 <= q < out@.len() implies (#[trigger] out@[q]).nextstate < self.table().len() by {
                assert(tr_of_move(self.table(), out@[q], done[q]));
            }
        }
        Ok(out)
    }
}

impl<W: Semiring> FstOp2<W> for ComposeFstOp<W> {
    fn compute_trs_and_final_weight(&mut self, id: StateId) -> (r: Result<(Vec<Tr<W>>, W), FstError>) {
        let ghost op0 = *self;
        let trs = match self.compute_trs(id) {
            Ok(v) => v,
            Err(e) => {
                return Err(e);
            },
        };
        let ghost op1 = *self;
        let w = match self.compute_final_weight(id) {
            Ok(w) => w,
            Err(e) => {
                proof {
                    op0.lemma_extends_trans(&op1, &*self);
                }
                return Err(e);
            },
        };
        proof {
            op1.lemma_extends_keeps(&*self);
            op0.lemma_extends_trans(&op1, &*self);
        }
        Ok((trs, w))
    }
}

/// `f` is the composition of `a` and `b` with its states numbered by `table`:
/// state `q` stands for tuple `table[q]`, and its transitions and final weight
/// are those that tuple has in the composition.
pub open spec fn is_composition<W: Semiring>(
    a: FstView<W>,
    b: FstView<W>,
    table: Seq<ComposeStateTuple>,
    f: FstView<W>,
) -> bool {
    &&& f.wf()
    &&& f.num_states() == table.len()
    &&& match (a.start, b.start) {
        (Some(x), Some(y)) => f.start matches Some(s) && table[s as int] == (ComposeStateTuple {
            s1: x,
            s2: y,
            fs: FilterState::NoMatch,
        }),
        _ => f.start is None,
    }
    &&& forall|q: int|
        0 <= q < f.num_states() ==> trs_of_moves(table, #[trigger] f.trs[q], compose_moves(a, b, table[q]))
            && Ok::<W, FstError>(f.finals[q]) == compose_final(a, b, table[q])
}

/// The operator that composes two FSTs with generic matchers and the sequence filter.
fn create_base<W: Semiring>(fst1: Arc<VectorFst<W>>, fst2: Arc<VectorFst<W>>) -> (r: Result<ComposeFstOp<W>, FstError>)
    requires
        (*fst1)@.wf(),
        (*fst2)@.wf(),
    ensures
        r matches Ok(op) && op.op_inv() && op.fst1() == (*fst1)@ && op.fst2() == (*fst2)@ && op.table()
            == Seq::<ComposeStateTuple>::empty(),
{
    ComposeFstOp::new(fst1, fst2, ComposeFstOpOptions::new())
}

/// The composition of two FSTs, computed state by state on demand.
pub struct ComposeFst<W> {
    fst: LazyFst<W, ComposeFstOp<W>>,
}

impl<W: Semiring> ComposeFst<W> {
    pub closed spec fn lazy(&self) -> LazyFst<W, ComposeFstOp<W>> {
        self.fst
    }

    pub open spec fn wf(&self) -> bool {
        &&& self.lazy().wf()
        &&& distinct(self.table())
    }

    /// Every state id stands for the start tuple or for the target of a move of
    /// an earlier state.
    pub open spec fn rooted(&self) -> bool {
        rooted(self.fst1(), self.fst2(), self.table())
    }

    /// What has been computed so far: start, transitions and final weights.
    pub open spec fn cache(&self) -> CacheView<W> {
        self.lazy().cache()
    }

    /// The first operand.
    pub open spec fn fst1(&self) -> FstView<W> {
        self.lazy().op().fst1()
    }

    /// The second operand.
    pub open spec fn fst2(&self) -> FstView<W> {
        self.lazy().op().fst2()
    }

    /// The tuple each state id stands for; its length is the number of states
    /// expanded so far.
    pub open spec fn table(&self) -> Seq<ComposeStateTuple> {
        self.lazy().op().table()
    }

    /// `next` is `self` after more queries: operands kept, ids kept.
    pub open spec fn evolves_to(&self, next: &Self) -> bool {
        &&& self.rooted() ==> next.rooted()
        &&& next.fst1() == self.fst1()
        &&& next.fst2() == self.fst2()
        &&& table_extends(self.table(), next.table())
        &&& cache_extends(self.cache(), next.cache())
    }

    fn from_op(op: ComposeFstOp<W>) -> (r: Self)
        requires
            op.op_inv(),
        ensures
            r.wf(),
            r.lazy().op() == op,
    {
        let cache = SimpleHashMapCache::new();
        proof {
            op.lemma_table_distinct();
        }
        ComposeFst { fst: LazyFst::from_op_and_cache(op, cache) }
    }

    /// The composition of `fst1` and `fst2` numbering states with the table of
    /// `opts`; fails with `InvalidState` when that table names a missing state.
    pub fn new_with_options(fst1: Arc<VectorFst<W>>, fst2: Arc<VectorFst<W>>, opts: ComposeFstOpOptions) -> (r: Result<
        Self,
        FstError,
    >)
        requires
            (*fst1)@.wf(),
            (*fst2)@.wf(),
            opts.state_table.wf(),
        ensures
            (forall|i: int|
                0 <= i < opts.state_table@.len() ==> (#[trigger] opts.state_table@[i]).s1 < (*fst1)@.num_states()
                    && opts.state_table@[i].s2 < (*fst2)@.num_states()) <==> r is Ok,
            r is Err ==> r == Err::<Self, FstError>(FstError::InvalidState),
            r matches Ok(c) ==> c.wf() && c.fst1() == (*fst1)@ && c.fst2() == (*fst2)@ && c.table()
                == opts.state_table@,
    {
        match ComposeFstOp::new(fst1, fst2, opts) {
            Ok(op) => Ok(ComposeFst::from_op(op)),
            Err(e) => Err(e),
        }
    }

    /// The composition of `fst1` and `fst2`.
    pub fn new(fst1: Arc<VectorFst<W>>, fst2: Arc<VectorFst<W>>) -> (r: Result<Self, FstError>)
        requires
            (*fst1)@.wf(),
            (*fst2)@.wf(),
        ensures
            r matches Ok(c) && c.wf() && c.fst1() == (*fst1)@ && c.fst2() == (*fst2)@ && c.table()
                == Seq::<ComposeStateTuple>::empty() && c.rooted(),
    {
        Self::new_with_options(fst1, fst2, ComposeFstOpOptions::new())
    }

    /// The composition of `fst1` and `fst2` with generic matchers and the
    /// sequence filter.
    pub fn new_auto(fst1: Arc<VectorFst<W>>, fst2: Arc<VectorFst<W>>) -> (r: Result<Self, FstError>)
        requires
            (*fst1)@.wf(),
            (*fst2)@.wf(),
        ensures
            r matches Ok(c) && c.wf() && c.fst1() == (*fst1)@ && c.fst2() == (*fst2)@ && c.table()
                == Seq::<ComposeStateTuple>::empty() && c.rooted(),
    {
        match create_base(fst1, fst2) {
            Ok(op) => Ok(ComposeFst::from_op(op)),
            Err(e) => Err(e),
        }
    }

    /// Number of composite states expanded so far.
    pub fn num_known_states(&self) -> (r: usize)
        requires
            self.wf(),
        ensures
            r == self.table().len(),
    {
        self.fst.num_known_states()
    }

    /// The composite start state: the tuple of both start states, or none
    /// when either operand has no start state.
    pub fn start(&mut self) -> (r: Result<Option<StateId>, FstError>)
        requires
            old(self).wf(),
        ensures
            final(self).wf(),
            old(self).evolves_to(final(self)),
            match (final(self).fst1().start, final(self).fst2().start) {
                (Some(x), Some(y)) => r matches Ok(Some(id)) && id < final(self).table().len()
                    && final(self).table()[id as int] == (ComposeStateTuple { s1: x, s2: y, fs: FilterState::NoMatch }),
                _ => r == Ok::<Option<StateId>, FstError>(None),
            },
            final(self).cache().start == Some(r),
            forall|k: int|
                old(self).table().len() <= k < final(self).table().len() ==> #[trigger] final(self).table()[k]
                    == (ComposeStateTuple {
                    s1: final(self).fst1().start->Some_0,
                    s2: final(self).fst2().start->Some_0,
                    fs: FilterState::NoMatch,
                }),
    {
        let r = self.fst.start();
        proof {
            self.fst.op().lemma_table_distinct();
        }
        r
    }

    /// Final weight of composite state `s`.
    pub fn final_weight(&mut self, s: StateId) -> (r: Result<W, FstError>)
        requires
            old(self).wf(),
        ensures
            final(self).wf(),
            old(self).evolves_to(final(self)),
            s < old(self).table().len() ==> r == compose_final(
                final(self).fst1(),
                final(self).fst2(),
                final(self).table()[s as int],
            ),
            s >= old(self).table().len() ==> r == Err::<W, FstError>(FstError::InvalidState),
            s < old(self).table().len() ==> final(self).cache().finals.contains_key(s) && final(self).cache().finals[s]
                == r,
            final(self).table() == old(self).table(),
    {
        let r = self.fst.final_weight(s);
        proof {
            self.fst.op().lemma_table_distinct();
            assert(self.table() =~= self.table().subrange(0, old(self).table().len() as int));
        }
        r
    }

    /// Transitions of composite state `s`: one for each admitted move, in order,
    /// each target numbered by the table. Every target is an expanded id.
    pub fn get_trs(&mut self, s: StateId) -> (r: Result<Vec<Tr<W>>, FstError>)
        requires
            old(self).wf(),
        ensures
            final(self).wf(),
            old(self).evolves_to(final(self)),
            s < old(self).table().len() ==> match r {
                Ok(trs) => trs_of_moves(
                    final(self).table(),
                    trs@,
                    compose_moves(final(self).fst1(), final(self).fst2(), final(self).table()[s as int]),
                ),
                Err(e) => some_move_fails(
                    compose_moves(final(self).fst1(), final(self).fst2(), final(self).table()[s as int]),
                    e,
                ),
            },
            s >= old(self).table().len() ==> r == Err::<Vec<Tr<W>>, FstError>(FstError::InvalidState),
            targets_below(crate::cache::trs_result_view(r), final(self).table().len()),
            s < old(self).table().len() ==> final(self).cache().trs.contains_key(s) && final(self).cache().trs[s]
                == crate::cache::trs_result_view(r),
            s < old(self).table().len() ==> forall|k: int|
                old(self).table().len() <= k < final(self).table().len() ==> exists|i: int|
                    0 <= i < compose_moves(final(self).fst1(), final(self).fst2(), old(self).table()[s as int]).len()
                        && (#[trigger] compose_moves(final(self).fst1(), final(self).fst2(), old(self).table()[s as int])[i]).next
                        == #[trigger] final(self).table()[k],
    {
        let r = self.fst.get_trs(s);
        proof {
            self.fst.op().lemma_table_distinct();
        }
        r
    }

    /// Expands every composite state reachable from the start and returns the
    /// composition as a `VectorFst` with the same state ids.
    pub fn compute(&mut self) -> (r: Result<VectorFst<W>, FstError>)
        requires
            old(self).wf(),
        ensures
            final(self).wf(),
            old(self).evolves_to(final(self)),
            r matches Ok(f) ==> is_composition(final(self).fst1(), final(self).fst2(), final(self).table(), f@),
            r matches Err(e) ==> exists|q: int|
                0 <= q < final(self).table().len() && (#[trigger] some_move_fails(
                    compose_moves(final(self).fst1(), final(self).fst2(), final(self).table()[q]),
                    e,
                ) || compose_final(final(self).fst1(), final(self).fst2(), final(self).table()[q]) == Err::<W, FstError>(
                    e,
                )),
            old(self).rooted() ==> (r matches Ok(f) ==> (f@.num_states() > 0 ==> f@.start is Some)
                && forall|q: int|
                0 <= q < f@.num_states() ==> #[trigger] reachable(graph_of(f@, true), f@.start->Some_0 as int, q)),
    {
        let r = self.fst.compute();
        proof {
            self.fst.op().lemma_table_distinct();
            if let Err(e) = r {
                let op = self.fst.op();
                assert(!op.start_ok(Err(e)));
                let q = choose|q: StateId| q < op.num_known() && #[trigger] state_fails(op, q, e);
                let qi = q as int;
                assert(0 <= qi < self.table().len());
                assert(self.table()[qi] == op.table()[q as int]);
                assert(some_move_fails(compose_moves(op.fst1(), op.fst2(), op.table()[q as int]), e)
                    || compose_final(op.fst1(), op.fst2(), op.table()[q as int]) == Err::<W, FstError>(e));
                assert(some_move_fails(compose_moves(self.fst1(), self.fst2(), self.table()[qi]), e)
                    || compose_final(self.fst1(), self.fst2(), self.table()[qi]) == Err::<W, FstError>(e));
            }
            if r is Ok {
                let f = r->Ok_0;
                let op = self.fst.op();
                assert forall|q: int| 0 <= q < f@.num_states() implies trs_of_moves(
                    op.table(),
                    #[trigger] f@.trs[q],
                    compose_moves(op.fst1(), op.fst2(), op.table()[q]),
                ) && Ok::<W, FstError>(f@.finals[q]) == compose_final(op.fst1(), op.fst2(), op.table()[q]) by {
                    assert(op.trs_ok(q as StateId, Ok(f@.trs[q])));
                }
                assert(is_composition(op.fst1(), op.fst2(), op.table(), f@));
                if old(self).rooted() {
                    assert(self.rooted());
                    assert forall|q: int| 0 <= q < f@.num_states() implies #[trigger] reachable(
                        graph_of(f@, true),
                        f@.start->Some_0 as int,
                        q,
                    ) by {
                        lemma_composition_reachable(op.fst1(), op.fst2(), op.table(), f@, q);
                    }
                    if f@.num_states() > 0 {
                        lemma_composition_reachable(op.fst1(), op.fst2(), op.table(), f@, 0);
                    }
                }
            }
        }
        r
    }
}

/// Each move of `a_moves(.., n)` is a move of one of the first `n` transitions.
proof fn lemma_a_moves_member<W: Semiring>(a: FstView<W>, b: FstView<W>, t: ComposeStateTuple, n: nat, k: int)
    requires
        0 <= k < a_moves(a, b, t, n).len(),
    ensures
        exists|i: int, k2: int|
            0 <= i < n && 0 <= k2 < moves_of_tr(a, b, t, a.trs[t.s1 as int][i]).len() && a_moves(a, b, t, n)[k]
                == #[trigger] moves_of_tr(a, b, t, a.trs[t.s1 as int][i])[k2],
    decreases n,
{
    let prev = a_moves(a, b, t, (n - 1) as nat);
    let last = moves_of_tr(a, b, t, a.trs[t.s1 as int][n - 1]);
    if k < prev.len() {
        lemma_a_moves_member(a, b, t, (n - 1) as nat, k);
        let (i, k2) = choose|i: int, k2: int|
            0 <= i < n - 1 && 0 <= k2 < moves_of_tr(a, b, t, a.trs[t.s1 as int][i]).len() && prev[k]
                == #[trigger] moves_of_tr(a, b, t, a.trs[t.s1 as int][i])[k2];
        assert(a_moves(a, b, t, n)[k] == prev[k]);
    } else {
        assert(a_moves(a, b, t, n)[k] == last[k - prev.len()]);
    }
}

/// `f`'s transition `tr` leaving a state for tuple `t` is one product
/// transition: both operands move on a shared non-epsilon label, or one of
/// them moves alone on an epsilon on the shared side.
pub open spec fn product_edge<W: Semiring>(
    a: FstView<W>,
    b: FstView<W>,
    t: ComposeStateTuple,
    tr: Tr<W>,
    next: ComposeStateTuple,
) -> bool {
    ||| exists|i: int, j: int|
        0 <= i < a.trs[t.s1 as int].len() && 0 <= j < b.trs[t.s2 as int].len() && ({
            let ta = #[trigger] a.trs[t.s1 as int][i];
            let tb = #[trigger] b.trs[t.s2 as int][j];
            &&& ta.olabel == tb.ilabel
            &&& ta.olabel != EPS_LABEL
            &&& tr.ilabel == ta.ilabel && tr.olabel == tb.olabel
            &&& ta.weight.times_spec(tb.weight) == Ok::<W, crate::semiring::SemiringError>(tr.weight)
            &&& next.s1 == ta.nextstate && next.s2 == tb.nextstate
        })
    ||| exists|i: int|
        0 <= i < a.trs[t.s1 as int].len() && ({
            let ta = #[trigger] a.trs[t.s1 as int][i];
            &&& ta.olabel == EPS_LABEL
            &&& tr.ilabel == ta.ilabel && tr.olabel == EPS_LABEL
            &&& ta.weight.times_spec(W::one_spec()) == Ok::<W, crate::semiring::SemiringError>(tr.weight)
            &&& next.s1 == ta.nextstate && next.s2 == t.s2
        })
    ||| exists|j: int|
        0 <= j < b.trs[t.s2 as int].len() && ({
            let tb = #[trigger] b.trs[t.s2 as int][j];
            &&& tb.ilabel == EPS_LABEL
            &&& tr.ilabel == EPS_LABEL && tr.olabel == tb.olabel
            &&& W::one_spec().times_spec(tb.weight) == Ok::<W, crate::semiring::SemiringError>(tr.weight)
            &&& next.s1 == t.s1 && next.s2 == tb.nextstate
        })
}

/// Every transition of the composition is a transition of the product
/// construction between the tuples its states stand for.
pub proof fn lemma_composition_sound<W: Semiring>(
    a: FstView<W>,
    b: FstView<W>,
    table: Seq<ComposeStateTuple>,
    f: FstView<W>,
    q: int,
    k: int,
)
    requires
        is_composition(a, b, table, f),
        0 <= q < f.num_states(),
        0 <= k < f.trs[q].len(),
        table[q].s1 < a.num_states(),
        table[q].s2 < b.num_states(),
    ensures
        product_edge(a, b, table[q], f.trs[q][k], table[f.trs[q][k].nextstate as int]),
{
    let t = table[q];
    let ms = compose_moves(a, b, t);
    let tr = f.trs[q][k];
    assert(trs_of_moves(table, f.trs[q], ms));
    assert(tr_of_move(table, tr, ms[k]));
    let bms = b_eps_moves(a, b, t);
    let btrs = b.trs[t.s2 as int];
    if k < bms.len() {
        let fs = seq_filter(a, t.s1 as int, t.fs, None, Some(EPS_LABEL))->Some_0;
        let mb = matching(btrs, EPS_LABEL, true, btrs.len());
        lemma_matching_members(btrs, EPS_LABEL, true, btrs.len());
        assert(ms[k] == bms[k]);
        assert(bms[k] == b_eps_move(t, fs, mb[k]));
        let j = choose|j: int| 0 <= j < btrs.len() && btrs[j] == mb[k];
        assert(b.trs[t.s2 as int][j] == mb[k]);
    } else {
        let n = a.trs[t.s1 as int].len();
        let k1 = k - bms.len();
        assert(ms[k] == a_moves(a, b, t, n)[k1]);
        lemma_a_moves_member(a, b, t, n, k1);
        let (i, k2) = choose|i: int, k2: int|
            0 <= i < n && 0 <= k2 < moves_of_tr(a, b, t, a.trs[t.s1 as int][i]).len() && a_moves(a, b, t, n)[k1]
                == #[trigger] moves_of_tr(a, b, t, a.trs[t.s1 as int][i])[k2];
        let ta = a.trs[t.s1 as int][i];
        if ta.olabel == EPS_LABEL {
            assert(a.trs[t.s1 as int][i] == ta);
        } else {
            let mb = matching(btrs, ta.olabel, true, btrs.len());
            lemma_matching_members(btrs, ta.olabel, true, btrs.len());
            assert(moves_of_tr(a, b, t, ta)[k2] == pair_move(ta, mb[k2]));
            let j = choose|j: int| 0 <= j < btrs.len() && btrs[j] == mb[k2];
            assert(a.trs[t.s1 as int][i] == ta);
            assert(b.trs[t.s2 as int][j] == mb[k2]);
        }
    }
}

/// Every pair of transitions that match on a non-epsilon label gives a
/// transition of the composition.
pub proof fn lemma_composition_complete<W: Semiring>(
    a: FstView<W>,
    b: FstView<W>,
    table: Seq<ComposeStateTuple>,
    f: FstView<W>,
    q: int,
    i: int,
    j: int,
)
    requires
        is_composition(a, b, table, f),
        0 <= q < f.num_states(),
        table[q].s1 < a.num_states(),
        table[q].s2 < b.num_states(),
        0 <= i < a.trs[table[q].s1 as int].len(),
        0 <= j < b.trs[table[q].s2 as int].len(),
        a.trs[table[q].s1 as int][i].olabel == b.trs[table[q].s2 as int][j].ilabel,
        a.trs[table[q].s1 as int][i].olabel != EPS_LABEL,
    ensures
        exists|k: int|
            0 <= k < f.trs[q].len() && ({
                let ta = a.trs[table[q].s1 as int][i];
                let tb = b.trs[table[q].s2 as int][j];
                let tr = #[trigger] f.trs[q][k];
                &&& tr.ilabel == ta.ilabel && tr.olabel == tb.olabel
                &&& ta.weight.times_spec(tb.weight) == Ok::<W, crate::semiring::SemiringError>(tr.weight)
                &&& table[tr.nextstate as int] == (ComposeStateTuple {
                    s1: ta.nextstate,
                    s2: tb.nextstate,
                    fs: FilterState::NoMatch,
                })
            }),
{
    let t = table[q];
    let ta = a.trs[t.s1 as int][i];
    let tb = b.trs[t.s2 as int][j];
    let btrs = b.trs[t.s2 as int];
    let n = a.trs[t.s1 as int].len();
    let ms = compose_moves(a, b, t);
    let bms = b_eps_moves(a, b, t);
    lemma_matching_complete(btrs, ta.olabel, true, btrs.len(), j);
    let mb = matching(btrs, ta.olabel, true, btrs.len());
    let k2 = choose|k2: int| 0 <= k2 < mb.len() && #[trigger] mb[k2] == btrs[j];
    let group = moves_of_tr(a, b, t, ta);
    assert(group[k2] == pair_move(ta, tb));
    lemma_a_moves_prefix(a, b, t, (i + 1) as nat, n);
    let pre = a_moves(a, b, t, i as nat);
    assert(a_moves(a, b, t, (i + 1) as nat) == pre + group);
    let big = a_moves(a, b, t, n);
    let k1 = pre.len() + k2;
    assert(big[k1] == big.subrange(0, (pre + group).len() as int)[k1]);
    assert(big[k1] == pair_move(ta, tb));
    let k = bms.len() + k1;
    assert(ms[k] == big[k1]);
    assert(trs_of_moves(table, f.trs[q], ms));
    assert(tr_of_move(table, f.trs[q][k], ms[k]));
}

/// In a composition whose tuples are all reached from the start tuple, every
/// state is reachable from the start state.
pub proof fn lemma_composition_reachable<W: Semiring>(
    a: FstView<W>,
    b: FstView<W>,
    table: Seq<ComposeStateTuple>,
    f: FstView<W>,
    q: int,
)
    requires
        is_composition(a, b, table, f),
        rooted(a, b, table),
        distinct(table),
        0 <= q < f.num_states(),
    ensures
        f.start is Some,
        reachable(graph_of(f, true), f.start->Some_0 as int, q),
    decreases q,
{
    let g = graph_of(f, true);
    assert(rooted_at(a, b, table, q));
    if a.start is Some && b.start is Some && table[q] == start_tuple(a, b) {
        let s = f.start->Some_0 as int;
        assert(table[s] == table[q]);
        assert(s == q);
        assert(reach_n(g, s, q, 0));
    } else {
        let (j, i) = choose|j: int, i: int|
            0 <= j < q && 0 <= i < compose_moves(a, b, table[j]).len() && (#[trigger] compose_moves(a, b, table[j])[i]).next
                == table[q];
        lemma_composition_reachable(a, b, table, f, j);
        let ms = compose_moves(a, b, table[j]);
        assert(trs_of_moves(table, f.trs[j], ms));
        assert(tr_of_move(table, f.trs[j][i], ms[i]));
        let x = f.trs[j][i].nextstate as int;
        assert(table[x] == table[q]);
        assert(x == q);
        assert(g[j][i] == (crate::matcher::side_label(f.trs[j][i], true), f.trs[j][i].nextstate));
        assert(edge(g, j, q));
        lemma_reach_step(g, f.start->Some_0 as int, j, q);
    }
}

} // verus!
