//! Bijection between composite state tuples and dense state ids.
use vstd::prelude::*;
use std::collections::HashMap;
use crate::fst::StateId;

verus! {

broadcast use vstd::std_specs::hash::group_hash_axioms;

/// Coordinate of the sequence composition filter: which epsilon moves are
/// still allowed at a composite state.
#[derive(Clone, Copy, Debug, PartialEq, Eq, Hash, Structural)]
pub enum FilterState {
    /// No restriction: the first FST may move alone on an output epsilon. This
    /// is the state at the start, after a real match, and after a move of the
    /// first FST alone.
    NoMatch,
    /// The second FST has moved alone on an input epsilon; the first may not
    /// move alone until a real match.
    EpsB,
}

/// A state of the composed FST: a state of each operand and the filter state.
#[derive(Clone, Copy, Debug, PartialEq, Eq, Hash, Structural)]
pub struct ComposeStateTuple {
    pub s1: StateId,
    pub s2: StateId,
    pub fs: FilterState,
}

/// Model of `find_or_insert`: the table after the call and the id returned.
pub open spec fn find_or_insert_spec(v: Seq<ComposeStateTuple>, t: ComposeStateTuple) -> (Seq<
    ComposeStateTuple,
>, nat) {
    if v.contains(t) {
        (v, choose|i: nat| i < v.len() && v[i as int] == t)
    } else {
        (v.push(t), v.len())
    }
}

/// Tuples listed without repetition.
pub open spec fn distinct(v: Seq<ComposeStateTuple>) -> bool {
    forall|i: int, j: int| 0 <= i < v.len() && 0 <= j < v.len() && i != j ==> v[i] != v[j]
}

/// Tuples of the composition, numbered in order of first appearance. The index
/// lists, for each first-operand state, the ids of the tuples that hold it.
pub struct StateTable {
    tuples: Vec<ComposeStateTuple>,
    index: HashMap<StateId, Vec<StateId>>,
}

impl View for StateTable {
    type V = Seq<ComposeStateTuple>;

    closed spec fn view(&self) -> Seq<ComposeStateTuple> {
        self.tuples@
    }
}

impl StateTable {
    pub closed spec fn wf(&self) -> bool {
        &&& distinct(self.tuples@)
        &&& forall|id: int|
            0 <= id < self.tuples@.len() ==> self.index@.contains_key(#[trigger] self.tuples@[id].s1)
                && self.index@[self.tuples@[id].s1]@.contains(id as StateId)
        &&& forall|k: StateId, j: int|
            self.index@.contains_key(k) && 0 <= j < self.index@[k]@.len() ==> #[trigger] self.index@[k]@[j]
                < self.tuples@.len() && self.tuples@[self.index@[k]@[j] as int].s1 == k
    }

    pub fn new() -> (r: Self)
        ensures
            r.wf(),
            r@ == Seq::<ComposeStateTuple>::empty(),
    {
        StateTable { tuples: Vec::new(), index: HashMap::new() }
    }

    /// Number of ids handed out so far.
    pub fn len(&self) -> (r: usize)
        ensures
            r == self@.len(),
    {
        self.tuples.len()
    }

    /// The id of `t`, allocating the next one if `t` is new.
    pub fn find_or_insert(&mut self, t: ComposeStateTuple) -> (r: StateId)
        requires
            old(self).wf(),
        ensures
            final(self).wf(),
            (final(self)@, r as nat) == find_or_insert_spec(old(self)@, t),
            r < final(self)@.len(),
            final(self)@[r as int] == t,
    {
        let ghost v = self@;
        let n = self.tuples.len();
        let mut found: Option<StateId> = None;
        match self.index.get(&t.s1) {
            Some(ids) => {
                let mut j: usize = 0;
                while j < ids.len()
                    invariant
                        self.wf(),
                        self@ == v,
                        self.index@.contains_key(t.s1),
                        ids@ == self.index@[t.s1]@,
                        0 <= j <= ids.len(),
                        found matches Some(id) ==> id < v.len() && v[id as int] == t,
                        found is None ==> forall|q: int| 0 <= q < j ==> v[#[trigger] ids@[q] as int] != t,
                    ensures
                        found matches Some(id) ==> id < v.len() && v[id as int] == t,
                        found is None ==> forall|q: int| 0 <= q < ids@.len() ==> v[#[trigger] ids@[q] as int] != t,
                    decreases ids.len() - j,
                {
                    let id = ids[j];
                    if self.tuples[id] == t {
                        found = Some(id);
                        break;
                    }
                    j = j + 1;
                }
                proof {
                    if found is None {
                        assert forall|i: int| 0 <= i < v.len() implies v[i] != t by {
                            if v[i] == t {
                                assert(i < n);
                                assert(self.index@.contains_key(self.tuples@[i].s1));
                                assert(self.index@[t.s1]@.contains(i as StateId));
                                let q = choose|q: int| 0 <= q < ids@.len() && ids@[q] == i as StateId;
                                assert(v[ids@[q] as int] != t);
                            }
                        }
                    }
                }
            },
            None => {
                proof {
                    assert forall|i: int| 0 <= i < v.len() implies v[i] != t by {
                        if v[i] == t {
                            assert(self.index@.contains_key(v[i].s1));
                        }
                    }
                }
            },
        }
        match found {
            Some(id) => {
                proof {
                    assert(v.contains(t));
                    let c = choose|i: nat| i < v.len() && v[i as int] == t;
                    assert(c == id);
                }
                id
            },
            None => {
                assert(!v.contains(t));
                let id = self.tuples.len();
                self.tuples.push(t);
                let mut bucket = match self.index.remove(&t.s1) {
                    Some(b) => b,
                    None => Vec::new(),
                };
                bucket.push(id);
                self.index.insert(t.s1, bucket);
                proof {
                    assert forall|i: int| 0 <= i < self.tuples@.len() implies self.index@.contains_key(
                        #[trigger] self.tuples@[i].s1,
                    ) && self.index@[self.tuples@[i].s1]@.contains(i as StateId) by {
                        if i < v.len() && self.tuples@[i].s1 == t.s1 {
                            let q = choose|q: int|
                                0 <= q < old(self).index@[t.s1]@.len() && old(self).index@[t.s1]@[q] == i as StateId;
                            assert(self.index@[t.s1]@[q] == i as StateId);
                        }
                        if i == v.len() {
                            assert(self.index@[t.s1]@[self.index@[t.s1]@.len() - 1] == id);
                        }
                    }
                }
                id
            },
        }
    }

    pub proof fn lemma_wf_distinct(&self)
        requires
            self.wf(),
        ensures
            distinct(self@),
    {
    }

    /// The tuple that has id `id`.
    pub fn find_tuple(&self, id: StateId) -> (r: ComposeStateTuple)
        requires
            id < self@.len(),
        ensures
            r == self@[id as int],
    {
        self.tuples[id]
    }
}

/// Looking up the id that `find_or_insert` hands out for a tuple gives that tuple.
pub proof fn lemma_lookup_find_or_insert(v: Seq<ComposeStateTuple>, t: ComposeStateTuple)
    ensures
        ({
            let (w, id) = find_or_insert_spec(v, t);
            id < w.len() && w[id as int] == t
        }),
{
    if v.contains(t) {
        let i = choose|i: int| 0 <= i < v.len() && v[i] == t;
        assert((i as nat) < v.len() && v[(i as nat) as int] == t);
    }
}

} // verus!
