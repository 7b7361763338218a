//! Memoized start state, transitions and final weights of a lazy FST.
use vstd::prelude::*;
use std::collections::HashMap;
use crate::fst::{FstError, StateId, Tr, copy_trs};

verus! {

broadcast use vstd::std_specs::hash::group_hash_axioms;

/// Model of a cache: each slot is absent until written, then holds the result
/// of the computation, an error included.
pub struct CacheView<W> {
    pub start: Option<Result<Option<StateId>, FstError>>,
    pub trs: Map<StateId, Result<Seq<Tr<W>>, FstError>>,
    pub finals: Map<StateId, Result<W, FstError>>,
}

/// `b` holds every slot of `a`, with the same value.
pub open spec fn cache_extends<W>(a: CacheView<W>, b: CacheView<W>) -> bool {
    &&& (a.start is Some ==> b.start == a.start)
    &&& forall|s: StateId| #[trigger] a.trs.contains_key(s) ==> b.trs.contains_key(s) && b.trs[s] == a.trs[s]
    &&& forall|s: StateId|
        #[trigger] a.finals.contains_key(s) ==> b.finals.contains_key(s) && b.finals[s] == a.finals[s]
}

pub open spec fn trs_result_view<W>(r: Result<Vec<Tr<W>>, FstError>) -> Result<Seq<Tr<W>>, FstError> {
    match r {
        Ok(v) => Ok(v@),
        Err(e) => Err(e),
    }
}

/// A written slot keeps its value through any later writes.
pub proof fn lemma_written_slot_stable<W>(a: CacheView<W>, b: CacheView<W>, c: CacheView<W>, s: StateId)
    requires
        cache_extends(a, b),
        cache_extends(b, c),
    ensures
        cache_extends(a, c),
        a.trs.contains_key(s) ==> c.trs[s] == a.trs[s],
        a.finals.contains_key(s) ==> c.finals[s] == a.finals[s],
{
}

/// A cache backed by hash maps keyed by state id.
pub struct SimpleHashMapCache<W> {
    start: Option<Result<Option<StateId>, FstError>>,
    trs: HashMap<StateId, Result<Vec<Tr<W>>, FstError>>,
    finals: HashMap<StateId, Result<W, FstError>>,
}

impl<W> View for SimpleHashMapCache<W> {
    type V = CacheView<W>;

    closed spec fn view(&self) -> CacheView<W> {
        CacheView {
            start: self.start,
            trs: self.trs@.map_values(|r: Result<Vec<Tr<W>>, FstError>| trs_result_view(r)),
            finals: self.finals@,
        }
    }
}

impl<W: Copy> SimpleHashMapCache<W> {
    pub fn new() -> (r: Self)
        ensures
            r@.start is None,
            r@.trs == Map::<StateId, Result<Seq<Tr<W>>, FstError>>::empty(),
            r@.finals == Map::<StateId, Result<W, FstError>>::empty(),
    {
        let r = SimpleHashMapCache { start: None, trs: HashMap::new(), finals: HashMap::new() };
        assert(r@.trs =~= Map::<StateId, Result<Seq<Tr<W>>, FstError>>::empty());
        r
    }

    pub fn get_start(&self) -> (r: Option<Result<Option<StateId>, FstError>>)
        ensures
            r == self@.start,
    {
        self.start
    }

    /// Writes the start slot unless it was written before.
    pub fn insert_start(&mut self, v: Result<Option<StateId>, FstError>)
        ensures
            cache_extends(old(self)@, final(self)@),
            final(self)@.trs == old(self)@.trs,
            final(self)@.finals == old(self)@.finals,
            final(self)@.start == (if old(self)@.start is Some { old(self)@.start } else { Some(v) }),
    {
        if self.start.is_none() {
            self.start = Some(v);
        }
    }

    pub fn get_trs(&self, s: StateId) -> (r: Option<Result<Vec<Tr<W>>, FstError>>)
        ensures
            self@.trs.contains_key(s) <==> r is Some,
            r matches Some(v) ==> trs_result_view(v) == self@.trs[s],
    {
        match self.trs.get(&s) {
            Some(Ok(v)) => Some(Ok(copy_trs(v))),
            Some(Err(e)) => Some(Err(*e)),
            None => None,
        }
    }

    /// Writes the transitions slot of `s` unless it was written before.
    pub fn insert_trs(&mut self, s: StateId, v: Result<Vec<Tr<W>>, FstError>)
        ensures
            cache_extends(old(self)@, final(self)@),
            final(self)@.start == old(self)@.start,
            final(self)@.finals == old(self)@.finals,
            final(self)@.trs == (if old(self)@.trs.contains_key(s) {
                old(self)@.trs
            } else {
                old(self)@.trs.insert(s, trs_result_view(v))
            }),
    {
        if !self.trs.contains_key(&s) {
            self.trs.insert(s, v);
            assert(self@.trs =~= old(self)@.trs.insert(s, trs_result_view(v)));
        }
    }

    pub fn get_final_weight(&self, s: StateId) -> (r: Option<Result<W, FstError>>)
        ensures
            self@.finals.contains_key(s) <==> r is Some,
            r matches Some(v) ==> v == self@.finals[s],
    {
        match self.finals.get(&s) {
            Some(v) => Some(*v),
            None => None,
        }
    }

    /// Writes the final-weight slot of `s` unless it was written before.
    pub fn insert_final_weight(&mut self, s: StateId, v: Result<W, FstError>)
        ensures
            cache_extends(old(self)@, final(self)@),
            final(self)@.start == old(self)@.start,
            final(self)@.trs == old(self)@.trs,
            final(self)@.finals == (if old(self)@.finals.contains_key(s) {
                old(self)@.finals
            } else {
                old(self)@.finals.insert(s, v)
            }),
    {
        if !self.finals.contains_key(&s) {
            self.finals.insert(s, v);
        }
    }
}

} // verus!
