//! An FST computed on demand: an operator says how to compute a state, a cache
//! keeps what was computed.
use vstd::prelude::*;
use crate::cache::{CacheView, SimpleHashMapCache, cache_extends, trs_result_view};
use crate::fst::{FstError, StateId, Tr, VectorFst};
use crate::semiring::Semiring;

verus! {

/// How to compute the start state, transitions and final weight of each state
/// of a lazy FST. State ids are handed out densely; `num_known` of them so far.
pub trait FstOp<W: Semiring>: Sized {
    spec fn inv(&self) -> bool;

    /// Number of state ids handed out so far.
    spec fn num_known(&self) -> nat;

    /// A bound on the number of state ids this operator can ever hand out.
    spec fn state_bound(&self) -> nat;

    /// `next` is `self` after more work.
    spec fn extends_to(&self, next: &Self) -> bool;

    /// Every id handed out so far is accounted for by the queries that made it.
    spec fn rooted(&self) -> bool;

    /// `next` has handed out new ids only for the start state.
    spec fn start_growth_ok(&self, next: &Self) -> bool;

    /// `next` has handed out new ids only for targets of the transitions of `id`.
    spec fn trs_growth_ok(&self, next: &Self, id: StateId) -> bool;

    /// `r` is the right start state.
    spec fn start_ok(&self, r: Result<Option<StateId>, FstError>) -> bool;

    /// `r` holds the right transitions of state `id`.
    spec fn trs_ok(&self, id: StateId, r: Result<Seq<Tr<W>>, FstError>) -> bool;

    /// `r` is the right final weight of state `id`.
    spec fn final_ok(&self, id: StateId, r: Result<W, FstError>) -> bool;

    proof fn lemma_extends_refl(&self)
        ensures
            self.extends_to(self),
    ;

    proof fn lemma_extends_trans(&self, b: &Self, c: &Self)
        requires
            self.extends_to(b),
            b.extends_to(c),
        ensures
            self.extends_to(c),
    ;

    /// Work done later never makes earlier answers wrong.
    proof fn lemma_extends_keeps(&self, next: &Self)
        requires
            self.inv(),
            self.extends_to(next),
        ensures
            self.num_known() <= next.num_known(),
            self.state_bound() == next.state_bound(),
            forall|r: Result<Option<StateId>, FstError>| #[trigger] self.start_ok(r) ==> next.start_ok(r),
            forall|id: StateId, r: Result<Seq<Tr<W>>, FstError>|
                id < self.num_known() && #[trigger] self.trs_ok(id, r) ==> next.trs_ok(id, r),
            forall|id: StateId, r: Result<W, FstError>|
                id < self.num_known() && #[trigger] self.final_ok(id, r) ==> next.final_ok(id, r),
    ;

    proof fn lemma_inv_bound(&self)
        requires
            self.inv(),
        ensures
            self.num_known() <= self.state_bound(),
            self.num_known() <= usize::MAX,
    ;

    fn num_known_states(&self) -> (r: usize)
        requires
            self.inv(),
        ensures
            r == self.num_known(),
    ;

    fn compute_start(&mut self) -> (r: Result<Option<StateId>, FstError>)
        requires
            old(self).inv(),
        ensures
            final(self).inv(),
            old(self).extends_to(final(self)),
            final(self).start_ok(r),
            r matches Ok(Some(s)) ==> s < final(self).num_known(),
            old(self).start_growth_ok(final(self)),
            old(self).rooted() ==> final(self).rooted(),
    ;

    fn compute_trs(&mut self, id: StateId) -> (r: Result<Vec<Tr<W>>, FstError>)
        requires
            old(self).inv(),
            id < old(self).num_known(),
        ensures
            final(self).inv(),
            old(self).extends_to(final(self)),
            final(self).trs_ok(id, trs_result_view(r)),
            r matches Ok(v) ==> forall|i: int| 0 <= i < v@.len() ==> (#[trigger] v@[i]).nextstate < final(self).num_known(),
            old(self).trs_growth_ok(final(self), id),
            old(self).rooted() ==> final(self).rooted(),
    ;

    fn compute_final_weight(&mut self, id: StateId) -> (r: Result<W, FstError>)
        requires
            old(self).inv(),
            id < old(self).num_known(),
        ensures
            final(self).inv(),
            old(self).extends_to(final(self)),
            final(self).num_known() == old(self).num_known(),
            final(self).final_ok(id, r),
            old(self).rooted() ==> final(self).rooted(),
    ;
}

/// An operator that computes the transitions and the final weight of a state
/// together.
pub trait FstOp2<W: Semiring>: FstOp<W> {
    fn compute_trs_and_final_weight(&mut self, id: StateId) -> (r: Result<(Vec<Tr<W>>, W), FstError>)
        requires
            old(self).inv(),
            id < old(self).num_known(),
        ensures
            final(self).inv(),
            old(self).extends_to(final(self)),
            r matches Ok(p) ==> final(self).trs_ok(id, Ok(p.0@)) && final(self).final_ok(id, Ok(p.1)),
            r matches Err(e) ==> final(self).trs_ok(id, Err(e)) || final(self).final_ok(id, Err(e)),
    ;
}

/// Computing the transitions or the final weight of state `q` fails with `e`.
pub open spec fn state_fails<W: Semiring, Op: FstOp<W>>(op: Op, q: StateId, e: FstError) -> bool {
    op.trs_ok(q, Err(e)) || op.final_ok(q, Err(e))
}

/// Every target state of the transitions in `r` is below `n`.
pub open spec fn targets_below<W>(r: Result<Seq<Tr<W>>, FstError>, n: nat) -> bool {
    r matches Ok(v) ==> seq_targets_below(v, n)
}

pub open spec fn seq_targets_below<W>(v: Seq<Tr<W>>, n: nat) -> bool {
    forall|i: int| 0 <= i < v.len() ==> (#[trigger] v[i]).nextstate < n
}

/// The cache holds only right answers, about known states only.
pub open spec fn cache_agrees<W: Semiring, Op: FstOp<W>>(op: Op, c: CacheView<W>) -> bool {
    &&& (c.start matches Some(r) ==> op.start_ok(r) && (r matches Ok(Some(s)) ==> s < op.num_known()))
    &&& forall|s: StateId|
        #[trigger] c.trs.contains_key(s) ==> s < op.num_known() && op.trs_ok(s, c.trs[s]) && targets_below(
            c.trs[s],
            op.num_known(),
        )
    &&& forall|s: StateId| #[trigger] c.finals.contains_key(s) ==> s < op.num_known() && op.final_ok(s, c.finals[s])
}

pub struct LazyFst<W, Op> {
    op: Op,
    cache: SimpleHashMapCache<W>,
}

impl<W: Semiring, Op: FstOp<W>> LazyFst<W, Op> {
    pub closed spec fn op(&self) -> Op {
        self.op
    }

    pub closed spec fn cache(&self) -> CacheView<W> {
        self.cache@
    }

    pub open spec fn wf(&self) -> bool {
        self.op().inv() && cache_agrees(self.op(), self.cache())
    }

    /// Number of states expanded so far: ids in `0..expanded_count` are in use.
    pub open spec fn expanded_count(&self) -> nat {
        self.op().num_known()
    }

    /// `next` is `self` after more queries.
    pub open spec fn evolves_to(&self, next: &Self) -> bool {
        &&& self.op().extends_to(&next.op())
        &&& cache_extends(self.cache(), next.cache())
        &&& self.expanded_count() <= next.expanded_count()
    }

    pub fn from_op_and_cache(op: Op, cache: SimpleHashMapCache<W>) -> (r: Self)
        requires
            op.inv(),
            cache_agrees(op, cache@),
        ensures
            r.wf(),
            r.op() == op,
            r.cache() == cache@,
    {
        LazyFst { op, cache }
    }

    pub fn num_known_states(&self) -> (r: usize)
        requires
            self.wf(),
        ensures
            r == self.expanded_count(),
    {
        self.op.num_known_states()
    }

    /// The start state, computed on first use.
    pub fn start(&mut self) -> (r: Result<Option<StateId>, FstError>)
        requires
            old(self).wf(),
        ensures
            final(self).wf(),
            old(self).evolves_to(final(self)),
            final(self).op().start_ok(r),
            final(self).cache().start == Some(r),
            r matches Ok(Some(s)) ==> s < final(self).expanded_count(),
            old(self).op() == final(self).op() || old(self).op().start_growth_ok(&final(self).op()),
            old(self).op().rooted() ==> final(self).op().rooted(),
    {
        match self.cache.get_start() {
            Some(r) => {
                proof {
                    self.op.lemma_extends_refl();
                }
                r
            },
            None => {
                let ghost op0 = self.op;
                let r = self.op.compute_start();
                proof {
                    op0.lemma_extends_keeps(&self.op);
                }
                self.cache.insert_start(r);
                r
            },
        }
    }

    /// Transitions of state `s`, computed on first use; every later query of
    /// `s` returns the same.
    pub fn get_trs(&mut self, s: StateId) -> (r: Result<Vec<Tr<W>>, FstError>)
        requires
            old(self).wf(),
        ensures
            final(self).wf(),
            old(self).evolves_to(final(self)),
            s < old(self).expanded_count() ==> final(self).op().trs_ok(s, trs_result_view(r)),
            s < old(self).expanded_count() ==> final(self).cache().trs.contains_key(s)
                && final(self).cache().trs[s] == trs_result_view(r),
            s >= old(self).expanded_count() ==> r == Err::<Vec<Tr<W>>, FstError>(FstError::InvalidState),
            targets_below(trs_result_view(r), final(self).expanded_count()),
            old(self).op() == final(self).op() || old(self).op().trs_growth_ok(&final(self).op(), s),
            old(self).op().rooted() ==> final(self).op().rooted(),
    {
        proof {
            self.op.lemma_extends_refl();
        }
        if s >= self.op.num_known_states() {
            return Err(FstError::InvalidState);
        }
        match self.cache.get_trs(s) {
            Some(r) => {
                proof {
                    assert(self.cache@.trs.contains_key(s));

                }
                r
            },
            None => {
                let ghost op0 = self.op;
                let r = self.op.compute_trs(s);
                proof {
                    op0.lemma_extends_keeps(&self.op);
                }
                let ghost c0 = self.cache@;
                let stored = match &r {
                    Ok(v) => Ok(crate::fst::copy_trs(v)),
                    Err(e) => Err(*e),
                };
                self.cache.insert_trs(s, stored);
                proof {
                    assert(self.cache@.trs[s] == trs_result_view(r));
                }
                r
            },
        }
    }

    /// Final weight of state `s` (zero when not final), computed on first use.
    pub fn final_weight(&mut self, s: StateId) -> (r: Result<W, FstError>)
        requires
            old(self).wf(),
        ensures
            final(self).wf(),
            old(self).evolves_to(final(self)),
            s < old(self).expanded_count() ==> final(self).op().final_ok(s, r),
            s < old(self).expanded_count() ==> final(self).cache().finals.contains_key(s)
                && final(self).cache().finals[s] == r,
            s >= old(self).expanded_count() ==> r == Err::<W, FstError>(FstError::InvalidState),
            final(self).expanded_count() == old(self).expanded_count(),
            old(self).op().rooted() ==> final(self).op().rooted(),
    {
        proof {
            self.op.lemma_extends_refl();
        }
        if s >= self.op.num_known_states() {
            return Err(FstError::InvalidState);
        }
        match self.cache.get_final_weight(s) {
            Some(r) => r,
            None => {
                let ghost op0 = self.op;
                let r = self.op.compute_final_weight(s);
                proof {
                    op0.lemma_extends_keeps(&self.op);
                }
                self.cache.insert_final_weight(s, r);
                r
            },
        }
    }

    /// Expands states until every state id handed out is expanded, and copies
    /// the machine into a `VectorFst` with the same state ids.
    #[verifier::spinoff_prover]
    pub fn compute(&mut self) -> (r: Result<VectorFst<W>, FstError>)
        requires
            old(self).wf(),
        ensures
            final(self).wf(),
            old(self).evolves_to(final(self)),
            r matches Ok(f) ==> {
                &&& f@.wf()
                &&& f@.num_states() == final(self).expanded_count()
                &&& final(self).op().start_ok(Ok(f@.start))
                &&& forall|q: StateId|
                    q < f@.num_states() ==> #[trigger] final(self).op().trs_ok(q, Ok(f@.trs[q as int]))
                        && final(self).op().final_ok(q, Ok(f@.finals[q as int]))
            },
            r matches Err(e) ==> final(self).op().start_ok(Err(e)) || exists|q: StateId|
                q < final(self).expanded_count() && #[trigger] state_fails(final(self).op(), q, e),
            old(self).op().rooted() ==> final(self).op().rooted(),
    {
        proof {
            self.op.lemma_extends_refl();
        }
        let start = match self.start() {
            Ok(st) => st,
            Err(e) => {
                return Err(e);
            },
        };
        proof {
            old(self).op.lemma_extends_keeps(&self.op);
        }
        let mut out: VectorFst<W> = VectorFst::new();
        let mut s: usize = 0;
        while s < self.num_known_states()
            invariant
                self.wf(),
                old(self).evolves_to(self),
                self.op().state_bound() == old(self).op().state_bound(),
                old(self).op().rooted() ==> self.op().rooted(),
                self.op().start_ok(Ok(start)),
                start matches Some(s0) ==> s0 < self.expanded_count(),
                out@.wf(),
                out@.start is None,
                s <= out@.num_states() <= self.expanded_count(),
                forall|q: StateId|
                    q < s ==> #[trigger] self.op().trs_ok(q, Ok(out@.trs[q as int])) && self.op().final_ok(
                        q,
                        Ok(out@.finals[q as int]),
                    ),
                forall|q: int| s <= q < out@.num_states() ==> (#[trigger] out@.trs[q]).len() == 0,
            decreases old(self).op().state_bound() - s,
        {
            proof {
                self.op.lemma_inv_bound();
            }
            let ghost l0 = *self;
            let trs = match self.get_trs(s) {
                Ok(v) => v,
                Err(e) => {
                    proof {
                        old(self).op.lemma_extends_trans(&l0.op, &self.op);
                        assert(state_fails(self.op(), s, e));
                    }
                    return Err(e);
                },
            };
            proof {
                l0.op.lemma_extends_keeps(&self.op);
            }
            let ghost l1 = *self;
            let fw = match self.final_weight(s) {
                Ok(w) => w,
                Err(e) => {
                    proof {
                        old(self).op.lemma_extends_trans(&l0.op, &l1.op);
                        old(self).op.lemma_extends_trans(&l1.op, &self.op);
                        assert(state_fails(self.op(), s, e));
                    }
                    return Err(e);
                },
            };
            proof {
                l1.op.lemma_extends_keeps(&self.op);
                old(self).op.lemma_extends_trans(&l0.op, &l1.op);
                old(self).op.lemma_extends_trans(&l1.op, &self.op);
                self.op.lemma_inv_bound();
            }
            let n = self.num_known_states();
            assert forall|q: StateId| q < s implies #[trigger] self.op().trs_ok(q, Ok(out@.trs[q as int]))
                && self.op().final_ok(q, Ok(out@.finals[q as int])) by {
                assert(l0.op().trs_ok(q, Ok(out@.trs[q as int])));
                assert(l1.op().trs_ok(q, Ok(out@.trs[q as int])));
                assert(l0.op().final_ok(q, Ok(out@.finals[q as int])));
                assert(l1.op().final_ok(q, Ok(out@.finals[q as int])));
            }
            let ghost o3 = out@;
            out.add_states_to(n);
            proof {
                assert forall|q: StateId| q < s implies #[trigger] self.op().trs_ok(q, Ok(out@.trs[q as int]))
                    && self.op().final_ok(q, Ok(out@.finals[q as int])) by {
                    assert(self.op().trs_ok(q, Ok(o3.trs[q as int])));
                    assert(out@.trs[q as int] == o3.trs[q as int]);
                }
                assert forall|q: int| s <= q < out@.num_states() implies (#[trigger] out@.trs[q]).len() == 0 by {
                    if q < o3.num_states() {
                        assert(out@.trs[q] == o3.trs[q]);
                    }
                }
            }
            assert(seq_targets_below(trs@, l1.expanded_count()));
            let mut i: usize = 0;
            while i < trs.len()
                invariant
                    out@.wf(),
                    out@.start is None,
                    out@.num_states() == n,
                    s < n,
                    n == self.expanded_count(),
                    forall|j: int| 0 <= j < trs@.len() ==> (#[trigger] trs@[j]).nextstate < n,
                    0 <= i <= trs.len(),
                    out@.trs[s as int] == trs@.subrange(0, i as int),
                    forall|q: int| s < q < out@.num_states() ==> (#[trigger] out@.trs[q]).len() == 0,
                    forall|q: StateId|
                        q < s ==> #[trigger] self.op().trs_ok(q, Ok(out@.trs[q as int])) && self.op().final_ok(
                            q,
                            Ok(out@.finals[q as int]),
                        ),
                decreases trs.len() - i,
            {
                let ghost o0 = out@;
                assert(trs@[i as int].nextstate < n);
                let _ = out.add_tr(s, trs[i]);
                proof {
                    assert(out@.trs[s as int] =~= trs@.subrange(0, i + 1));
                    assert forall|q: StateId| q < s implies #[trigger] self.op().trs_ok(q, Ok(out@.trs[q as int]))
                        && self.op().final_ok(q, Ok(out@.finals[q as int])) by {
                        assert(self.op().trs_ok(q, Ok(o0.trs[q as int])));
                        assert(out@.trs[q as int] == o0.trs[q as int]);
                        assert(out@.finals[q as int] == o0.finals[q as int]);
                    }
                }
                i = i + 1;
            }
            let ghost o1 = out@;
            let _ = out.set_final(s, fw);
            proof {
                assert(trs@.subrange(0, trs@.len() as int) =~= trs@);
                assert forall|q: StateId| q < s + 1 implies #[trigger] self.op().trs_ok(q, Ok(out@.trs[q as int]))
                    && self.op().final_ok(q, Ok(out@.finals[q as int])) by {
                    if q < s {
                        assert(out@.finals[q as int] == o1.finals[q as int]);
                    }
                }
            }
            s = s + 1;
        }
        let ghost o2 = out@;
        if let Some(s0) = start {
            let _ = out.set_start(s0);
        }
        assert(out@.trs == o2.trs && out@.finals == o2.finals);
        assert(out@.start == start);
        assert(out@.num_states() == self.expanded_count());
        assert(out@.wf());
        assert(self.op().start_ok(Ok(out@.start)));
        assert forall|q: StateId| q < out@.num_states() implies #[trigger] self.op().trs_ok(q, Ok(out@.trs[q as int]))
            && self.op().final_ok(q, Ok(out@.finals[q as int])) by {
            assert(self.op().trs_ok(q, Ok(o2.trs[q as int])));
        }
        let r: Result<VectorFst<W>, FstError> = Ok(out);
        assert(r matches Ok(f) ==> {
            &&& f@.wf()
            &&& f@.num_states() == self.expanded_count()
            &&& self.op().start_ok(Ok(f@.start))
            &&& forall|q: StateId|
                q < f@.num_states() ==> #[trigger] self.op().trs_ok(q, Ok(f@.trs[q as int])) && self.op().final_ok(
                    q,
                    Ok(f@.finals[q as int]),
                )
        });
        r
    }
}

} // verus!