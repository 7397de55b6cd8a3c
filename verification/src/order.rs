//! The ancestor-ordered traversal, as a mathematical function: visiting a
//! node first visits every direct predecessor, in edge insertion order, then
//! appends the node itself; a shared seen set makes revisits no-ops.  The
//! lemmas here establish what resolution relies on: the emitted order is
//! duplicate-free, contains each visited root, and respects every edge.

use vstd::prelude::*;
use vstd::set_lib::lemma_int_range;
use vstd::set_lib::lemma_len_subset;
use vstd::set_lib::set_int_range;

use crate::graph::Edge;
use crate::graph::acyclic;
use crate::graph::edge_ex;
use crate::graph::is_path;
use crate::graph::lemma_reach_refl;
use crate::graph::lemma_reach_snoc;
use crate::graph::lemma_reach_trans;
use crate::graph::reach;
use crate::graph::reach_plus;
use crate::graph::wf_edges;

verus! {

/// Node `x` is the source of some edge of `es`.
pub open spec fn has_out_edge(es: Seq<Edge>, x: int) -> bool {
    exists|i: int| 0 <= i < es.len() && (#[trigger] es[i]).src == x
}

/// The sources of the edges into `v`, in edge insertion order.
pub open spec fn parents_of(es: Seq<Edge>, v: int) -> Seq<int> {
    es.filter(|e: Edge| e.dst == v).map_values(|e: Edge| e.src as int)
}

/// How many nodes of `0..n` lie outside `seen`.
pub open spec fn unvisited(n: int, seen: Set<int>) -> nat {
    set_int_range(0, n).difference(seen).len()
}

pub proof fn lemma_unvisited_subset(n: int, s1: Set<int>, s2: Set<int>)
    requires
        s1.subset_of(s2),
    ensures
        unvisited(n, s2) <= unvisited(n, s1),
{
    if n < 0 {
        assert(set_int_range(0, n) =~= Set::<int>::empty());
        assert(set_int_range(0, n).difference(s2) =~= Set::<int>::empty());
        assert(set_int_range(0, n).difference(s1) =~= Set::<int>::empty());
    } else {
        lemma_int_range(0, n);
        let d1 = set_int_range(0, n).difference(s1);
        let d2 = set_int_range(0, n).difference(s2);
        assert(d1.subset_of(set_int_range(0, n)));
        lemma_len_subset(d1, set_int_range(0, n));
        assert(d2.subset_of(d1));
        lemma_len_subset(d2, d1);
    }
}

pub proof fn lemma_unvisited_insert(n: int, seen: Set<int>, v: int)
    requires
        0 <= v < n,
        !seen.contains(v),
    ensures
        unvisited(n, seen.insert(v)) < unvisited(n, seen),
{
    lemma_int_range(0, n);
    let d0 = set_int_range(0, n).difference(seen);
    let d1 = set_int_range(0, n).difference(seen.insert(v));
    lemma_len_subset(d1, set_int_range(0, n));
    lemma_len_subset(d0, set_int_range(0, n));
    assert(d0 =~= d1.insert(v));
    assert(!d1.contains(v));
    assert(d0.len() == d1.len() + 1);
}

/// Visit `v`: a no-op if `v` is out of range or already seen; otherwise mark
/// it, visit its predecessors, then append it.
pub open spec fn visit(es: Seq<Edge>, n: int, seen: Set<int>, ord: Seq<int>, v: int) -> (Set<
    int,
>, Seq<int>)
    decreases unvisited(n, seen), 0int, 0int,
{
    if !(0 <= v < n) || seen.contains(v) {
        (seen, ord)
    } else {
        proof {
            lemma_unvisited_insert(n, seen, v);
        }
        let r = visit_list(es, n, seen.insert(v), ord, parents_of(es, v));
        (r.0, r.1.push(v))
    }
}

/// Visit each node of `l` in turn, threading the seen set and the order.
pub open spec fn visit_list(
    es: Seq<Edge>,
    n: int,
    seen: Set<int>,
    ord: Seq<int>,
    l: Seq<int>,
) -> (Set<int>, Seq<int>)
    decreases unvisited(n, seen), 1int, l.len(),
{
    if l.len() == 0 {
        (seen, ord)
    } else {
        let r1 = visit(es, n, seen, ord, l[0]);
        proof {
            lemma_unvisited_subset(n, seen, seen.union(r1.0));
        }
        visit_list(es, n, seen.union(r1.0), r1.1, l.drop_first())
    }
}

/// The order produced for the requested roots, starting from nothing seen.
pub open spec fn resolve_order(es: Seq<Edge>, n: int, roots: Seq<int>) -> Seq<int> {
    visit_list(es, n, Set::empty(), Seq::empty(), roots).1
}

/// A sequence of node indices, as mathematical integers.
pub open spec fn ord_int(o: Seq<usize>) -> Seq<int> {
    o.map_values(|u: usize| u as int)
}

/// `b` extends `a`: `a` is an initial segment of `b`.
pub open spec fn extends(b: Seq<int>, a: Seq<int>) -> bool {
    a.len() <= b.len() && forall|i: int| 0 <= i < a.len() ==> a[i] == b[i]
}

proof fn lemma_extends_contains(b: Seq<int>, a: Seq<int>, x: int)
    requires
        extends(b, a),
        a.contains(x),
    ensures
        b.contains(x),
{
    let i = choose|i: int| 0 <= i < a.len() && a[i] == x;
    assert(b[i] == x);
}

/// The traversal only ever grows the seen set and appends to the order.
pub proof fn lemma_visit_mono(es: Seq<Edge>, n: int, seen: Set<int>, ord: Seq<int>, v: int)
    ensures
        seen.subset_of(visit(es, n, seen, ord, v).0),
        extends(visit(es, n, seen, ord, v).1, ord),
    decreases unvisited(n, seen), 0int, 0int,
{
    if !(0 <= v < n) || seen.contains(v) {
    } else {
        lemma_unvisited_insert(n, seen, v);
        lemma_visit_list_mono(es, n, seen.insert(v), ord, parents_of(es, v));
    }
}

pub proof fn lemma_visit_list_mono(es: Seq<Edge>, n: int, seen: Set<int>, ord: Seq<int>, l: Seq<
    int,
>)
    ensures
        seen.subset_of(visit_list(es, n, seen, ord, l).0),
        extends(visit_list(es, n, seen, ord, l).1, ord),
    decreases unvisited(n, seen), 1int, l.len(),
{
    if l.len() == 0 {
    } else {
        let r1 = visit(es, n, seen, ord, l[0]);
        lemma_visit_mono(es, n, seen, ord, l[0]);
        lemma_unvisited_subset(n, seen, seen.union(r1.0));
        lemma_visit_list_mono(es, n, seen.union(r1.0), r1.1, l.drop_first());
    }
}

/// The pending traversal encoded by an explicit stack, applied to the
/// current seen set and order.  Entries are processed from the top: an
/// entry `(v, false)` performs the whole visit of `v`; an entry `(v, true)`
/// appends `v` to the order.
pub open spec fn unwind(
    es: Seq<Edge>,
    n: int,
    stack: Seq<(usize, bool)>,
    seen: Set<int>,
    ord: Seq<int>,
) -> (Set<int>, Seq<int>)
    decreases stack.len(),
{
    if stack.len() == 0 {
        (seen, ord)
    } else {
        let fr = stack.last();
        let r1 = if fr.1 {
            (seen, ord.push(fr.0 as int))
        } else {
            visit(es, n, seen, ord, fr.0 as int)
        };
        unwind(es, n, stack.drop_last(), r1.0, r1.1)
    }
}

/// The enter entries for the nodes of `ps`, pushed in reverse, so that the
/// stack pops them in list order.
pub open spec fn enters_rev(ps: Seq<int>) -> Seq<(usize, bool)> {
    ps.reverse().map_values(|p: int| ((p as usize), false))
}

/// Unwinding the enter entries of `ps`, pushed above `stack0`, visits the
/// nodes of `ps` in list order and then carries on with `stack0`.
pub proof fn lemma_unwind_enters(
    es: Seq<Edge>,
    n: int,
    stack0: Seq<(usize, bool)>,
    ps: Seq<int>,
    seen: Set<int>,
    ord: Seq<int>,
)
    requires
        0 <= n <= usize::MAX,
        forall|i: int| 0 <= i < ps.len() ==> 0 <= #[trigger] ps[i] < n,
    ensures
        ({
            let r = visit_list(es, n, seen, ord, ps);
            unwind(es, n, stack0 + enters_rev(ps), seen, ord) == unwind(es, n, stack0, r.0, r.1)
        }),
    decreases ps.len(),
{
    if ps.len() == 0 {
        assert(enters_rev(ps) =~= Seq::<(usize, bool)>::empty());
        assert(stack0 + enters_rev(ps) =~= stack0);
    } else {
        let full = stack0 + enters_rev(ps);
        assert(full.len() == stack0.len() + ps.len());
        assert(full.last() == (((ps[0] as usize), false))) by {
            assert(ps.reverse()[ps.len() - 1] == ps[0]);
            assert(enters_rev(ps)[ps.len() - 1] == (((ps[0] as usize), false)));
            assert(full[full.len() - 1] == enters_rev(ps)[ps.len() - 1]);
        }
        assert(((ps[0] as usize) as int) == ps[0]);
        let r1 = visit(es, n, seen, ord, ps[0]);
        let tail = ps.drop_first();
        assert(full.drop_last() =~= stack0 + enters_rev(tail)) by {
            assert forall|i: int| 0 <= i < full.len() - 1 implies full.drop_last()[i] == (stack0
                + enters_rev(tail))[i] by {
                if i < stack0.len() {
                } else {
                    assert(full[i] == enters_rev(ps)[i - stack0.len()]);
                    assert(ps.reverse()[i - stack0.len()] == ps[ps.len() - 1 - (i
                        - stack0.len())]);
                    assert(enters_rev(tail)[i - stack0.len()] == (((tail.reverse()[i
                        - stack0.len()]) as usize), false));
                    assert(tail.reverse()[i - stack0.len()] == tail[tail.len() - 1 - (i
                        - stack0.len())]);
                    assert(tail[tail.len() - 1 - (i - stack0.len())] == ps[ps.len() - 1 - (i
                        - stack0.len())]);
                }
            }
        }
        lemma_visit_mono(es, n, seen, ord, ps[0]);
        assert(seen.union(r1.0) =~= r1.0);
        assert(forall|i: int| 0 <= i < tail.len() ==> 0 <= #[trigger] tail[i] < n) by {
            assert(forall|i: int| 0 <= i < tail.len() ==> tail[i] == ps[i + 1]);
        }
        lemma_unwind_enters(es, n, stack0, tail, r1.0, r1.1);
        assert(visit_list(es, n, seen, ord, ps) == visit_list(es, n, r1.0, r1.1, tail));
    }
}

/// The order respects the edges: when a node stands in the order, each of
/// its direct predecessors stands strictly earlier.
pub open spec fn topo_ok(es: Seq<Edge>, ord: Seq<int>) -> bool {
    forall|k: int, j: int|
        0 <= k < ord.len() && #[trigger] edge_ex(es, j, ord[k]) ==> ord.take(k).contains(j)
}

/// The well-formedness carried through the traversal: the order is
/// duplicate-free, in range, inside the seen set, and respects the edges.
pub open spec fn ord_wf(es: Seq<Edge>, n: int, seen: Set<int>, ord: Seq<int>) -> bool {
    &&& ord.no_duplicates()
    &&& forall|k: int| 0 <= k < ord.len() ==> 0 <= #[trigger] ord[k] < n
    &&& forall|k: int| 0 <= k < ord.len() ==> seen.contains(#[trigger] ord[k])
    &&& seen.subset_of(set_int_range(0, n))
    &&& topo_ok(es, ord)
}

proof fn lemma_parents_sound(es: Seq<Edge>, n: int, v: int)
    requires
        wf_edges(es, n),
    ensures
        forall|i: int|
            0 <= i < parents_of(es, v).len() ==> {
                &&& 0 <= #[trigger] parents_of(es, v)[i] < n
                &&& edge_ex(es, parents_of(es, v)[i], v)
                &&& has_out_edge(es, parents_of(es, v)[i])
            },
{
    let pred = |e: Edge| e.dst == v;
    let fil = es.filter(pred);
    assert forall|i: int| 0 <= i < parents_of(es, v).len() implies {
        &&& 0 <= #[trigger] parents_of(es, v)[i] < n
        &&& edge_ex(es, parents_of(es, v)[i], v)
        &&& has_out_edge(es, parents_of(es, v)[i])
    } by {
        let e = fil[i];
        assert(fil.contains(e));
        es.lemma_filter_contains_rev(pred, e);
        let w = choose|w: int| 0 <= w < es.len() && es[w] == e;
        assert(es[w].src == e.src as int && es[w].dst == v);
        assert(parents_of(es, v)[i] == e.src as int);
    }
}

proof fn lemma_parents_complete(es: Seq<Edge>, v: int, j: int)
    requires
        edge_ex(es, j, v),
    ensures
        parents_of(es, v).contains(j),
{
    let pred = |e: Edge| e.dst == v;
    let w = choose|w: int| 0 <= w < es.len() && es[w].src == j && es[w].dst == v;
    es.lemma_filter_contains(pred, w);
    let fil = es.filter(pred);
    let k = choose|k: int| 0 <= k < fil.len() && fil[k] == es[w];
    assert(parents_of(es, v)[k] == j);
}

/// What one visit establishes: the node lands in the order, the
/// well-formedness is preserved, and the set of pending (seen but not yet
/// appended) nodes is unchanged.  Pending nodes must properly reach `v`, the
/// reason a revisit of a pending node cannot happen in an acyclic graph.
pub proof fn lemma_visit_ok(es: Seq<Edge>, n: int, seen: Set<int>, ord: Seq<int>, v: int)
    requires
        wf_edges(es, n),
        acyclic(es),
        ord_wf(es, n, seen, ord),
        0 <= v < n,
        forall|g: int| seen.contains(g) && !ord.contains(g) ==> reach_plus(es, v, g),
    ensures
        ({
            let r = visit(es, n, seen, ord, v);
            &&& ord_wf(es, n, r.0, r.1)
            &&& r.1.contains(v)
            &&& forall|x: int|
                (r.0.contains(x) && !r.1.contains(x)) <==> (seen.contains(x) && !ord.contains(x))
            &&& forall|x: int|
                r.1.contains(x) ==> ord.contains(x) || x == v || has_out_edge(es, x)
        }),
    decreases unvisited(n, seen), 0int, 0int,
{
    broadcast use vstd::seq_lib::lemma_seq_contains_after_push;

    lemma_visit_mono(es, n, seen, ord, v);
    let r = visit(es, n, seen, ord, v);
    if seen.contains(v) {
        if !ord.contains(v) {
            assert(reach_plus(es, v, v));
            assert(false);
        }
    } else {
        lemma_unvisited_insert(n, seen, v);
        let s1 = seen.insert(v);
        let ps = parents_of(es, v);
        lemma_parents_sound(es, n, v);
        assert forall|g: int, i: int|
            s1.contains(g) && !ord.contains(g) && 0 <= i < ps.len() implies reach_plus(
            es,
            ps[i],
            g,
        ) by {
            assert(edge_ex(es, ps[i], v));
            lemma_reach_refl(es, ps[i]);
            lemma_reach_snoc(es, ps[i], ps[i], v);
            if g == v {
            } else {
                assert(reach_plus(es, v, g));
                lemma_reach_plus_trans(es, ps[i], v, g);
            }
        }
        lemma_visit_list_ok(es, n, s1, ord, ps);
        let rl = visit_list(es, n, s1, ord, ps);
        lemma_visit_list_mono(es, n, s1, ord, ps);
        // v is still pending after the parents are visited
        assert(!ord.contains(v)) by {
            if ord.contains(v) {
                let k = choose|k: int| 0 <= k < ord.len() && ord[k] == v;
                assert(seen.contains(ord[k]));
            }
        }
        assert(s1.contains(v));
        assert(rl.0.contains(v) && !rl.1.contains(v));
        assert(r.1 == rl.1.push(v));
        // the appended entry satisfies the topological condition
        assert forall|k: int, j: int|
            0 <= k < r.1.len() && #[trigger] edge_ex(es, j, r.1[k]) implies r.1.take(k).contains(
            j,
        ) by {
            if k < rl.1.len() {
                assert(rl.1[k] == r.1[k]);
                assert(rl.1.take(k).contains(j));
                assert(rl.1.take(k) =~= r.1.take(k));
            } else {
                assert(r.1[k] == v);
                lemma_parents_complete(es, v, j);
                assert(rl.1.contains(j));
                assert(r.1.take(k) =~= rl.1);
            }
        }
        assert(r.1.no_duplicates()) by {
            assert(forall|i: int| 0 <= i < rl.1.len() ==> rl.1[i] != v);
            assert forall|i: int, j: int|
                0 <= i < r.1.len() && 0 <= j < r.1.len() && i != j implies r.1[i] != r.1[j] by {
                if i < rl.1.len() && j < rl.1.len() {
                    assert(r.1[i] == rl.1[i] && r.1[j] == rl.1[j]);
                    assert(rl.1[i] != rl.1[j]);
                } else if j == rl.1.len() {
                    assert(r.1[j] == v && r.1[i] == rl.1[i]);
                } else {
                    assert(r.1[i] == v && r.1[j] == rl.1[j]);
                }
            }
        }
        assert forall|x: int|
            (r.0.contains(x) && !r.1.contains(x)) <==> (seen.contains(x) && !ord.contains(
                x,
            )) by {
            assert(r.1.contains(x) <==> rl.1.contains(x) || x == v);
            if r.0.contains(x) && !r.1.contains(x) {
                assert(rl.0.contains(x) && !rl.1.contains(x) && x != v);
                assert(s1.contains(x) && !ord.contains(x));
                assert(seen.contains(x));
            }
            if seen.contains(x) && !ord.contains(x) {
                assert(s1.contains(x) && x != v);
                assert(rl.0.contains(x) && !rl.1.contains(x));
                assert(!r.1.contains(x));
            }
        }
        assert(r.1.contains(v)) by {
            assert(r.1[r.1.len() - 1] == v);
        }
    }
}

pub proof fn lemma_visit_list_ok(es: Seq<Edge>, n: int, seen: Set<int>, ord: Seq<int>, l: Seq<
    int,
>)
    requires
        wf_edges(es, n),
        acyclic(es),
        ord_wf(es, n, seen, ord),
        forall|i: int| 0 <= i < l.len() ==> 0 <= #[trigger] l[i] < n,
        forall|g: int, i: int|
            seen.contains(g) && !ord.contains(g) && 0 <= i < l.len() ==> #[trigger] reach_plus(
                es,
                l[i],
                g,
            ),
    ensures
        ({
            let r = visit_list(es, n, seen, ord, l);
            &&& ord_wf(es, n, r.0, r.1)
            &&& forall|i: int| 0 <= i < l.len() ==> r.1.contains(#[trigger] l[i])
            &&& forall|x: int|
                (r.0.contains(x) && !r.1.contains(x)) <==> (seen.contains(x) && !ord.contains(x))
            &&& forall|x: int|
                r.1.contains(x) ==> ord.contains(x) || l.contains(x) || has_out_edge(es, x)
        }),
    decreases unvisited(n, seen), 1int, l.len(),
{
    if l.len() == 0 {
    } else {
        let r1 = visit(es, n, seen, ord, l[0]);
        lemma_visit_mono(es, n, seen, ord, l[0]);
        lemma_visit_ok(es, n, seen, ord, l[0]);
        assert(seen.union(r1.0) =~= r1.0);
        lemma_unvisited_subset(n, seen, r1.0);
        let tail = l.drop_first();
        assert forall|g: int, i: int|
            r1.0.contains(g) && !r1.1.contains(g) && 0 <= i < tail.len() implies #[trigger] reach_plus(
            es,
            tail[i],
            g,
        ) by {
            assert(seen.contains(g) && !ord.contains(g));
            assert(tail[i] == l[i + 1]);
            assert(reach_plus(es, l[i + 1], g));
        }
        assert(forall|i: int| 0 <= i < tail.len() ==> 0 <= #[trigger] tail[i] < n) by {
            assert(forall|i: int| 0 <= i < tail.len() ==> tail[i] == l[i + 1]);
        }
        lemma_visit_list_ok(es, n, r1.0, r1.1, tail);
        let r = visit_list(es, n, r1.0, r1.1, tail);
        lemma_visit_list_mono(es, n, r1.0, r1.1, tail);
        assert(visit_list(es, n, seen, ord, l) == r);
        assert forall|i: int| 0 <= i < l.len() implies r.1.contains(#[trigger] l[i]) by {
            if i == 0 {
                lemma_extends_contains(r.1, r1.1, l[0]);
            } else {
                assert(tail[i - 1] == l[i]);
                assert(r.1.contains(tail[i - 1]));
            }
        }
        assert forall|x: int|
            r.1.contains(x) implies ord.contains(x) || l.contains(x) || has_out_edge(es, x) by {
            if !ord.contains(x) && !has_out_edge(es, x) {
                if r1.1.contains(x) {
                    assert(x == l[0]);
                    assert(l.contains(x));
                } else {
                    assert(tail.contains(x));
                    let i = choose|i: int| 0 <= i < tail.len() && tail[i] == x;
                    assert(l[i + 1] == x);
                    assert(l.contains(x));
                }
            }
        }
    }
}

/// A proper reachability chain composes with a leading reach.
pub proof fn lemma_reach_plus_trans(es: Seq<Edge>, a: int, b: int, c: int)
    requires
        reach(es, a, b),
        reach_plus(es, b, c),
    ensures
        reach_plus(es, a, c),
{
    let q = choose|q: Seq<int>|
        #[trigger] is_path(es, q) && q.len() >= 2 && q.first() == b && q.last() == c;
    let q1 = q.drop_last();
    assert(is_path(es, q1));
    assert(is_path(es, q1) && q1.first() == b && q1.last() == q[q.len() - 2]);
    lemma_reach_trans(es, a, b, q[q.len() - 2]);
    assert(edge_ex(es, q[q.len() - 2], q[q.len() - 1]));
    lemma_reach_snoc(es, a, q[q.len() - 2], c);
}

/// The facts resolution needs about the whole traversal: starting from
/// nothing seen, the emitted order is duplicate-free, respects every edge,
/// contains every requested root, and contains only roots and edge sources.
pub proof fn lemma_resolve_order(es: Seq<Edge>, n: int, roots: Seq<int>)
    requires
        wf_edges(es, n),
        acyclic(es),
        forall|i: int| 0 <= i < roots.len() ==> 0 <= #[trigger] roots[i] < n,
    ensures
        ({
            let ord = resolve_order(es, n, roots);
            &&& ord.no_duplicates()
            &&& forall|k: int| 0 <= k < ord.len() ==> 0 <= #[trigger] ord[k] < n
            &&& topo_ok(es, ord)
            &&& forall|i: int| 0 <= i < roots.len() ==> ord.contains(#[trigger] roots[i])
            &&& forall|x: int| ord.contains(x) ==> roots.contains(x) || has_out_edge(es, x)
        }),
{
    let seen = Set::<int>::empty();
    let ord0 = Seq::<int>::empty();
    assert(ord_wf(es, n, seen, ord0));
    lemma_visit_list_ok(es, n, seen, ord0, roots);
}

} // verus!
