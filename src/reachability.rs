//! Reachability between the states of a graph given by its labelled edges.
use vstd::prelude::*;
use crate::fst::{FstView, Label, StateId, Tr, VectorFst};
use crate::matcher::side_label;
use crate::semiring::Semiring;

verus! {

/// Edges of each state: the label on the chosen side and the target.
pub type LabelGraph = Seq<Seq<(Label, StateId)>>;

/// The edges of `f`, labelled by input (`reach_input`) or output labels.
pub open spec fn graph_of<W>(f: FstView<W>, reach_input: bool) -> LabelGraph {
    f.trs.map_values(|row: Seq<Tr<W>>| row.map_values(|t: Tr<W>| (side_label(t, reach_input), t.nextstate)))
}

pub open spec fn edge(g: LabelGraph, u: int, v: int) -> bool {
    0 <= u < g.len() && exists|i: int| 0 <= i < g[u].len() && (#[trigger] g[u][i]).1 == v
}

/// `t` can be reached from `s` in at most `n` steps.
pub open spec fn reach_n(g: LabelGraph, s: int, t: int, n: nat) -> bool
    decreases n,
{
    if n == 0 {
        s == t
    } else {
        reach_n(g, s, t, (n - 1) as nat) || exists|u: int| reach_n(g, s, u, (n - 1) as nat) && #[trigger] edge(g, u, t)
    }
}

pub open spec fn reachable(g: LabelGraph, s: int, t: int) -> bool {
    exists|n: nat| #[trigger] reach_n(g, s, t, n)
}

/// A reachable state other than the source is entered by an edge from a
/// reachable state.
pub proof fn lemma_last_edge(g: LabelGraph, s: int, t: int, n: nat)
    requires
        reach_n(g, s, t, n),
        s != t,
    ensures
        exists|u: int| reachable(g, s, u) && #[trigger] edge(g, u, t),
    decreases n,
{
    if reach_n(g, s, t, (n - 1) as nat) {
        lemma_last_edge(g, s, t, (n - 1) as nat);
    } else {
        let u = choose|u: int| reach_n(g, s, u, (n - 1) as nat) && #[trigger] edge(g, u, t);
        assert(reachable(g, s, u));
    }
}

/// One more edge after a reachable state gives a reachable state.
pub proof fn lemma_reach_step(g: LabelGraph, s: int, u: int, v: int)
    requires
        reachable(g, s, u),
        edge(g, u, v),
    ensures
        reachable(g, s, v),
{
    let n = choose|n: nat| #[trigger] reach_n(g, s, u, n);
    assert(reach_n(g, s, v, n + 1));
}

/// A set of states that holds `s` and every successor of its members holds
/// every state reachable from `s`.
proof fn lemma_closed_complete(g: LabelGraph, seen: Seq<bool>, s: int, t: int, n: nat)
    requires
        seen.len() == g.len(),
        0 <= s < seen.len(),
        seen[s],
        forall|u: int, i: int|
            0 <= u < g.len() && seen[u] && 0 <= i < g[u].len() ==> 0 <= (#[trigger] g[u][i]).1 < seen.len()
                && seen[g[u][i].1 as int],
        reach_n(g, s, t, n),
    ensures
        0 <= t < seen.len() && seen[t],
    decreases n,
{
    if n > 0 {
        if reach_n(g, s, t, (n - 1) as nat) {
            lemma_closed_complete(g, seen, s, t, (n - 1) as nat);
        } else {
            let u = choose|u: int| reach_n(g, s, u, (n - 1) as nat) && #[trigger] edge(g, u, t);
            lemma_closed_complete(g, seen, s, u, (n - 1) as nat);
            let i = choose|i: int| 0 <= i < g[u].len() && (#[trigger] g[u][i]).1 == t;
        }
    }
}

/// Number of `false` entries.
pub open spec fn count_false(v: Seq<bool>) -> nat
    decreases v.len(),
{
    if v.len() == 0 {
        0
    } else {
        count_false(v.drop_last()) + if v.last() {
            0nat
        } else {
            1nat
        }
    }
}

proof fn lemma_count_false_set(v: Seq<bool>, k: int)
    requires
        0 <= k < v.len(),
        !v[k],
    ensures
        count_false(v.update(k, true)) + 1 == count_false(v),
    decreases v.len(),
{
    let w = v.update(k, true);
    if k == v.len() - 1 {
        assert(w.drop_last() =~= v.drop_last());
    } else {
        assert(w.drop_last() =~= v.drop_last().update(k, true));
        lemma_count_false_set(v.drop_last(), k);
    }
}

/// For each state, whether it is reachable from `s` in `f`.
pub fn reachable_from<W: Semiring>(f: &VectorFst<W>, s: StateId, reach_input: bool) -> (r: Vec<bool>)
    requires
        f@.wf(),
        s < f@.num_states(),
    ensures
        r@.len() == f@.num_states(),
        forall|t: int| 0 <= t < r@.len() ==> (r@[t] <==> reachable(graph_of(f@, reach_input), s as int, t)),
{
    let ghost g = graph_of(f@, reach_input);
    let n = f.num_states();
    let mut seen: Vec<bool> = Vec::new();
    let mut k: usize = 0;
    while k < n
        invariant
            0 <= k <= n,
            seen@.len() == k,
            forall|q: int| 0 <= q < k ==> !seen@[q],
        decreases n - k,
    {
        seen.push(false);
        k = k + 1;
    }
    assert(reach_n(g, s as int, s as int, 0));
    seen.set(s, true);
    let mut stack: Vec<StateId> = Vec::new();
    stack.push(s);
    assert(stack@[0] == s);
    assert(stack@.contains(s));
    while stack.len() > 0
        invariant
            f@.wf(),
            g == graph_of(f@, reach_input),
            g.len() == n,
            n == f@.num_states(),
            s < n,
            seen@.len() == n,
            seen@[s as int],
            stack@.no_duplicates(),
            forall|k: int| 0 <= k < stack@.len() ==> (#[trigger] stack@[k]) < n && seen@[stack@[k] as int],
            forall|t: int| 0 <= t < n && #[trigger] seen@[t] ==> reachable(g, s as int, t),
            forall|u: int, i: int|
                0 <= u < n && seen@[u] && !stack@.contains(u as StateId) && 0 <= i < g[u].len() ==> seen@[(
                #[trigger] g[u][i]).1 as int],
        decreases count_false(seen@), stack@.len(),
    {
        let ghost st_before = stack@;
        let u = stack.pop().unwrap();
        let trs = f.get_trs(u).unwrap();
        let ghost seen0 = seen@;
        let ghost stack0 = stack@;
        assert(st_before =~= stack0.push(u));
        assert(!stack@.contains(u)) by {
            if stack0.contains(u) {
                let k = choose|k: int| 0 <= k < stack0.len() && stack0[k] == u;
                assert(st_before[k] == st_before[st_before.len() - 1]);
            }
        }
        assert forall|w: StateId| w != u && !#[trigger] stack0.contains(w) implies !st_before.contains(w) by {
            if st_before.contains(w) {
                let k = choose|k: int| 0 <= k < st_before.len() && st_before[k] == w;
                assert(stack0[k] == w);
            }
        }
        let mut i: usize = 0;
        while i < trs.len()
            invariant
                f@.wf(),
                g == graph_of(f@, reach_input),
                g.len() == n,
                n == f@.num_states(),
                u < n,
                s < n,
                trs@ == f@.trs[u as int],
                seen@.len() == n,
                seen@[s as int],
                seen@[u as int],
                0 <= i <= trs.len(),
                stack@.no_duplicates(),
                !stack@.contains(u),
                stack0.is_prefix_of(stack@),
                forall|k: int| 0 <= k < stack@.len() ==> (#[trigger] stack@[k]) < n && seen@[stack@[k] as int],
                forall|t: int| 0 <= t < n && #[trigger] seen@[t] ==> reachable(g, s as int, t),
                forall|j: int| 0 <= j < i ==> seen@[(#[trigger] g[u as int][j]).1 as int],
                forall|w: int, j: int|
                    0 <= w < n && w != u && seen@[w] && !stack@.contains(w as StateId) && 0 <= j < g[w].len()
                        ==> seen@[(#[trigger] g[w][j]).1 as int],
                count_false(seen@) <= count_false(seen0),
                count_false(seen@) == count_false(seen0) ==> stack@ == stack0,
            decreases trs.len() - i,
        {
            let v = trs[i].nextstate;
            assert(g[u as int][i as int].1 == v);
            if !seen[v] {
                proof {
                    lemma_count_false_set(seen@, v as int);
                    assert(edge(g, u as int, v as int));
                    lemma_reach_step(g, s as int, u as int, v as int);
                }
                let ghost st1 = stack@;
                seen.set(v, true);
                stack.push(v);
                proof {
                    assert forall|w: StateId| !stack@.contains(w) implies !st1.contains(w) by {
                        if st1.contains(w) {
                            let k = choose|k: int| 0 <= k < st1.len() && st1[k] == w;
                            assert(stack@[k] == w);
                        }
                    }
                    assert(stack@[stack@.len() - 1] == v);
                    assert(stack0.is_prefix_of(stack@)) by {
                        assert(stack@.subrange(0, stack0.len() as int) =~= st1.subrange(0, stack0.len() as int));
                    }
                }
            }
            i = i + 1;
        }
        proof {
            assert forall|w: int, j: int|
                0 <= w < n && seen@[w] && !stack@.contains(w as StateId) && 0 <= j < g[w].len() implies seen@[(
            #[trigger] g[w][j]).1 as int] by {
                if w != u {
                    assert(!stack@.contains(w as StateId));
                }
            }
        }
    }
    proof {
        assert forall|t: int| 0 <= t < seen@.len() implies (seen@[t] <==> reachable(g, s as int, t)) by {
            if reachable(g, s as int, t) {
                let m = choose|m: nat| #[trigger] reach_n(g, s as int, t, m);
                lemma_closed_complete(g, seen@, s as int, t, m);
            }
        }
    }
    seen
}

} // verus!
