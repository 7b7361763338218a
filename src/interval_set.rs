//! Sets of integers held as sorted, disjoint half-open intervals.
use vstd::prelude::*;

verus! {

/// The half-open interval `[begin, end)`.
#[derive(Clone, Copy, Debug, PartialEq, Eq, Structural)]
pub struct IntInterval {
    pub begin: usize,
    pub end: usize,
}

/// Whether some interval of `v` holds `x`.
pub open spec fn in_intervals(v: Seq<IntInterval>, x: int) -> bool {
    exists|i: int| 0 <= i < v.len() && (#[trigger] v[i]).begin <= x < v[i].end
}

/// Non-empty intervals in increasing order, each ending before the next begins.
pub open spec fn sorted_disjoint(v: Seq<IntInterval>) -> bool {
    &&& forall|i: int| 0 <= i < v.len() ==> (#[trigger] v[i]).begin < v[i].end
    &&& forall|i: int, j: int| 0 <= i < j < v.len() ==> (#[trigger] v[i]).end < (#[trigger] v[j]).begin
}

pub struct IntervalSet {
    intervals: Vec<IntInterval>,
}

impl View for IntervalSet {
    type V = Seq<IntInterval>;

    closed spec fn view(&self) -> Seq<IntInterval> {
        self.intervals@
    }
}

impl IntervalSet {
    pub open spec fn wf(&self) -> bool {
        sorted_disjoint(self@)
    }

    /// The integers the set holds.
    pub open spec fn contains(&self, x: int) -> bool {
        in_intervals(self@, x)
    }

    /// The empty set.
    pub fn new() -> (r: Self)
        ensures
            r.wf(),
            r@.len() == 0,
    {
        IntervalSet { intervals: Vec::new() }
    }

    /// The set of the indices `i` with `flags[i]` true.
    pub fn from_flags(flags: &Vec<bool>) -> (r: Self)
        ensures
            r.wf(),
            forall|x: int| r.contains(x) <==> 0 <= x < flags@.len() && flags@[x],
    {
        let mut v: Vec<IntInterval> = Vec::new();
        let mut i: usize = 0;
        while i < flags.len()
            invariant
                0 <= i <= flags.len(),
                sorted_disjoint(v@),
                forall|k: int| 0 <= k < v@.len() ==> (#[trigger] v@[k]).end <= i,
                v@.len() > 0 ==> v@[v@.len() - 1].end < i || (v@[v@.len() - 1].end == i && (i == flags.len()
                    || !flags@[i as int])),
                forall|x: int| in_intervals(v@, x) <==> 0 <= x < i && flags@[x],
            decreases flags.len() - i,
        {
            if flags[i] {
                let mut j: usize = i;
                while j < flags.len() && flags[j]
                    invariant
                        i <= j <= flags.len(),
                        forall|x: int| i <= x < j ==> flags@[x],
                    decreases flags.len() - j,
                {
                    j = j + 1;
                }
                let ghost old_v = v@;
                v.push(IntInterval { begin: i, end: j });
                proof {
                    assert forall|x: int| in_intervals(v@, x) <==> 0 <= x < j && flags@[x] by {
                        if in_intervals(v@, x) {
                            let k = choose|k: int| 0 <= k < v@.len() && (#[trigger] v@[k]).begin <= x < v@[k].end;
                            if k < old_v.len() {
                                assert(in_intervals(old_v, x));
                            }
                        }
                        if 0 <= x < j && flags@[x] {
                            if x < i {
                                let k = choose|k: int| 0 <= k < old_v.len() && (#[trigger] old_v[k]).begin <= x
                                    < old_v[k].end;
                                assert(v@[k] == old_v[k]);
                            } else {
                                assert(v@[v@.len() - 1].begin <= x < v@[v@.len() - 1].end);
                            }
                        }
                    }
                    assert forall|a: int, b: int| 0 <= a < b < v@.len() implies (#[trigger] v@[a]).end
                        < (#[trigger] v@[b]).begin by {
                        if b == v@.len() - 1 && a < old_v.len() {
                            assert(old_v[a].end <= old_v[old_v.len() - 1].end);
                        } else {
                            assert(v@[a] == old_v[a] && v@[b] == old_v[b]);
                        }
                    }
                }
                i = j;
            } else {
                i = i + 1;
            }
        }
        IntervalSet { intervals: v }
    }

    /// Whether `x` is in the set, by binary search.
    pub fn member(&self, x: usize) -> (r: bool)
        requires
            self.wf(),
        ensures
            r == self.contains(x as int),
    {
        let v = &self.intervals;
        let mut lo: usize = 0;
        let mut hi: usize = v.len();
        while lo < hi
            invariant
                0 <= lo <= hi <= v@.len(),
                v@ == self@,
                sorted_disjoint(v@),
                forall|k: int| 0 <= k < lo ==> (#[trigger] v@[k]).end <= x,
                forall|k: int| hi <= k < v@.len() ==> x < (#[trigger] v@[k]).begin,
            decreases hi - lo,
        {
            let mid = lo + (hi - lo) / 2;
            let iv = v[mid];
            if x < iv.begin {
                hi = mid;
            } else if x >= iv.end {
                lo = mid + 1;
            } else {
                assert(v@[mid as int].begin <= x < v@[mid as int].end);
                assert(self@ == v@);
                assert(in_intervals(self@, x as int));
                return true;
            }
        }
        proof {
            if in_intervals(v@, x as int) {
                let k = choose|k: int| 0 <= k < v@.len() && (#[trigger] v@[k]).begin <= x < v@[k].end;
                if k < lo {
                } else {
                }
            }
        }
        false
    }
}

} // verus!
