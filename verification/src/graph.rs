//! The graph engine: nodes keyed by index, typed edges, reachability, and
//! edge insertion that rejects edges that would close a cycle.

use vstd::prelude::*;

verus! {

/// The kind of a directed edge; an edge always means "source is ordered
/// before target".
#[derive(Copy, Clone, Debug, PartialEq, Eq, Structural)]
pub enum DepEdge {
    /// The target requires the source: a hard precondition.
    Requires,
    /// The target suggests the source: ordering only.
    Suggests,
    /// The source preceded the target in a declared root sequence.
    Follows,
}

/// A directed edge between two node indices.
#[derive(Copy, Clone, Debug, PartialEq, Eq, Structural)]
pub struct Edge {
    pub src: usize,
    pub dst: usize,
    pub kind: DepEdge,
}

/// Every edge of `es` joins nodes below `n`.
pub open spec fn wf_edges(es: Seq<Edge>, n: int) -> bool {
    forall|i: int| 0 <= i < es.len() ==> (#[trigger] es[i]).src < n && es[i].dst < n
}

/// Some edge in `es` goes from node `a` to node `b`, of any kind.
pub open spec fn edge_ex(es: Seq<Edge>, a: int, b: int) -> bool {
    exists|i: int| 0 <= i < es.len() && es[i].src == a && es[i].dst == b
}

/// Some edge in `es` goes from `a` to `b` with kind `k`.
pub open spec fn edge_kind_ex(es: Seq<Edge>, a: int, b: int, k: DepEdge) -> bool {
    exists|i: int| 0 <= i < es.len() && es[i].src == a && es[i].dst == b && es[i].kind == k
}

/// `p` is a walk along edges of `es`: nonempty, consecutive elements joined
/// by an edge.
pub open spec fn is_path(es: Seq<Edge>, p: Seq<int>) -> bool {
    p.len() >= 1 && forall|i: int| 0 <= i < p.len() - 1 ==> edge_ex(es, #[trigger] p[i], p[i + 1])
}

/// Node `b` can be reached from node `a` (in zero or more steps).
pub open spec fn reach(es: Seq<Edge>, a: int, b: int) -> bool {
    exists|p: Seq<int>| #[trigger] is_path(es, p) && p.first() == a && p.last() == b
}

/// Node `b` can be reached from node `a` in at least one step.
pub open spec fn reach_plus(es: Seq<Edge>, a: int, b: int) -> bool {
    exists|p: Seq<int>| #[trigger] is_path(es, p) && p.len() >= 2 && p.first() == a && p.last() == b
}

/// No node lies on a cycle.
pub open spec fn acyclic(es: Seq<Edge>) -> bool {
    forall|a: int| !reach_plus(es, a, a)
}

pub proof fn lemma_reach_refl(es: Seq<Edge>, a: int)
    ensures
        reach(es, a, a),
{
    let p = seq![a];
    assert(is_path(es, p) && p.first() == a && p.last() == a);
}

/// A path can be extended by one edge at its end.
pub proof fn lemma_reach_snoc(es: Seq<Edge>, a: int, b: int, c: int)
    requires
        reach(es, a, b),
        edge_ex(es, b, c),
    ensures
        reach_plus(es, a, c),
        reach(es, a, c),
{
    let p = choose|p: Seq<int>| is_path(es, p) && p.first() == a && p.last() == b;
    let q = p.push(c);
    assert forall|i: int| 0 <= i < q.len() - 1 implies #[trigger] edge_ex(es, q[i], q[i + 1]) by {
        if i < p.len() - 1 {
            assert(edge_ex(es, p[i], p[i + 1]));
        } else {
            assert(q[i] == b && q[i + 1] == c);
        }
    }
    assert(is_path(es, q) && q.first() == a && q.last() == c && q.len() >= 2);
}

/// Reachability is transitive.
pub proof fn lemma_reach_trans(es: Seq<Edge>, a: int, b: int, c: int)
    requires
        reach(es, a, b),
        reach(es, b, c),
    ensures
        reach(es, a, c),
{
    let q = choose|q: Seq<int>| is_path(es, q) && q.first() == b && q.last() == c;
    lemma_reach_trans_helper(es, a, b, q);
}

proof fn lemma_reach_trans_helper(es: Seq<Edge>, a: int, b: int, q: Seq<int>)
    requires
        reach(es, a, b),
        is_path(es, q),
        q.first() == b,
    ensures
        reach(es, a, q.last()),
    decreases q.len(),
{
    if q.len() == 1 {
    } else {
        let q1 = q.drop_last();
        assert(is_path(es, q1));
        lemma_reach_trans_helper(es, a, b, q1);
        assert(edge_ex(es, q[q.len() - 2], q[q.len() - 1]));
        lemma_reach_snoc(es, a, q1.last(), q.last());
    }
}

/// A path stays a path when the edge sequence is extended at the end.
pub proof fn lemma_path_mono(es: Seq<Edge>, es2: Seq<Edge>, p: Seq<int>)
    requires
        is_path(es, p),
        es.is_prefix_of(es2),
    ensures
        is_path(es2, p),
{
    assert forall|i: int| 0 <= i < p.len() - 1 implies #[trigger] edge_ex(es2, p[i], p[i + 1]) by {
        assert(edge_ex(es, p[i], p[i + 1]));
        let j = choose|j: int| 0 <= j < es.len() && es[j].src == p[i] && es[j].dst == p[i + 1];
        assert(es2[j] == es[j]);
    }
}

pub proof fn lemma_reach_mono(es: Seq<Edge>, es2: Seq<Edge>, a: int, b: int)
    requires
        reach(es, a, b),
        es.is_prefix_of(es2),
    ensures
        reach(es2, a, b),
{
    let p = choose|p: Seq<int>| is_path(es, p) && p.first() == a && p.last() == b;
    lemma_path_mono(es, es2, p);
}

/// An edge stays present when the edge sequence is extended at the end.
pub proof fn lemma_edge_ex_mono(es: Seq<Edge>, es2: Seq<Edge>, a: int, b: int)
    requires
        edge_ex(es, a, b),
        es.is_prefix_of(es2),
    ensures
        edge_ex(es2, a, b),
{
    let j = choose|j: int| 0 <= j < es.len() && es[j].src == a && es[j].dst == b;
    assert(es2[j] == es[j]);
}

pub proof fn lemma_edge_kind_ex_mono(es: Seq<Edge>, es2: Seq<Edge>, a: int, b: int, k: DepEdge)
    requires
        edge_kind_ex(es, a, b, k),
        es.is_prefix_of(es2),
    ensures
        edge_kind_ex(es2, a, b, k),
{
    let j = choose|j: int|
        0 <= j < es.len() && es[j].src == a && es[j].dst == b && es[j].kind == k;
    assert(es2[j] == es[j]);
}

/// When a rank strictly increases along every edge, it strictly increases
/// along every walk of two or more nodes; no such graph has a cycle.
pub proof fn lemma_path_rank(es: Seq<Edge>, rank: spec_fn(int) -> int, p: Seq<int>)
    requires
        is_path(es, p),
        p.len() >= 2,
        forall|i: int|
            0 <= i < es.len() ==> rank((#[trigger] es[i]).src as int) < rank(es[i].dst as int),
    ensures
        rank(p.first()) < rank(p.last()),
    decreases p.len(),
{
    let q = p.drop_last();
    assert(is_path(es, q));
    assert(edge_ex(es, p[p.len() - 2], p[p.len() - 1]));
    let j = choose|j: int|
        0 <= j < es.len() && es[j].src == p[p.len() - 2] && es[j].dst == p[p.len() - 1];
    if p.len() > 2 {
        lemma_path_rank(es, rank, q);
    }
}

/// Filtering keeps a duplicate-free sequence duplicate-free.
pub proof fn lemma_filter_no_dup<A>(s: Seq<A>, p: spec_fn(A) -> bool)
    requires
        s.no_duplicates(),
    ensures
        s.filter(p).no_duplicates(),
    decreases s.len(),
{
    reveal(Seq::filter);
    if s.len() > 0 {
        let s0 = s.drop_last();
        assert(s0.no_duplicates()) by {
            assert(forall|i: int| 0 <= i < s0.len() ==> s0[i] == s[i]);
        }
        lemma_filter_no_dup(s0, p);
        if p(s.last()) {
            let f0 = s0.filter(p);
            let f1 = s.filter(p);
            assert(f1 == f0.push(s.last()));
            assert(!f0.contains(s.last())) by {
                if f0.contains(s.last()) {
                    s0.lemma_filter_contains_rev(p, s.last());
                    let i = choose|i: int| 0 <= i < s0.len() && s0[i] == s.last();
                    assert(s[i] == s.last());
                }
            }
            assert forall|x: int, y: int|
                0 <= x < f1.len() && 0 <= y < f1.len() && x != y implies f1[x] != f1[y] by {
                if x < f0.len() && y < f0.len() {
                    assert(f1[x] == f0[x] && f1[y] == f0[y]);
                } else if y == f0.len() {
                    assert(f1[y] == s.last() && f1[x] == f0[x]);
                    assert(f0.contains(f0[x]));
                } else {
                    assert(f1[x] == s.last() && f1[y] == f0[y]);
                    assert(f0.contains(f0[y]));
                }
            }
        }
    }
}

/// A set that contains the head of a path and is closed under edges contains
/// the path's end.
pub proof fn lemma_closed_reach(es: Seq<Edge>, s: Set<int>, p: Seq<int>)
    requires
        is_path(es, p),
        s.contains(p.first()),
        forall|a: int, b: int| s.contains(a) && #[trigger] edge_ex(es, a, b) ==> s.contains(b),
    ensures
        s.contains(p.last()),
    decreases p.len(),
{
    if p.len() > 1 {
        let q = p.drop_last();
        assert(is_path(es, q));
        lemma_closed_reach(es, s, q);
        assert(edge_ex(es, p[p.len() - 2], p[p.len() - 1]));
    }
}

/// In `es.push(e)`, any walk either already existed, or passes through the
/// new edge, so its ends reach the new edge's ends in the old graph.
proof fn lemma_path_decompose(es: Seq<Edge>, e: Edge, p: Seq<int>)
    requires
        is_path(es.push(e), p),
    ensures
        is_path(es, p) || (reach(es, p.first(), e.src as int) && reach(es, e.dst as int, p.last())),
    decreases p.len(),
{
    if p.len() == 1 {
        assert(is_path(es, p));
    } else {
        let q = p.drop_last();
        assert(is_path(es.push(e), q));
        lemma_path_decompose(es, e, q);
        let x = p[p.len() - 2];
        let y = p[p.len() - 1];
        assert(edge_ex(es.push(e), x, y));
        let j = choose|j: int|
            0 <= j < es.push(e).len() && es.push(e)[j].src == x && es.push(e)[j].dst == y;
        if j < es.len() {
            // the last step uses an old edge
            assert(edge_ex(es, x, y));
            if is_path(es, q) {
                assert forall|i: int| 0 <= i < p.len() - 1 implies #[trigger] edge_ex(
                    es,
                    p[i],
                    p[i + 1],
                ) by {
                    if i < q.len() - 1 {
                        assert(edge_ex(es, q[i], q[i + 1]));
                    }
                }
                assert(is_path(es, p));
            } else {
                lemma_reach_snoc(es, e.dst as int, x, y);
            }
        } else {
            // the last step is the new edge: x == e.src, y == e.dst
            if is_path(es, q) {
                assert(is_path(es, q) && q.first() == p.first() && q.last() == x);
                lemma_reach_refl(es, e.dst as int);
            } else {
                lemma_reach_refl(es, e.dst as int);
            }
        }
    }
}

/// Adding an edge whose target does not already reach its source keeps the
/// graph acyclic.
pub proof fn lemma_acyclic_push(es: Seq<Edge>, e: Edge)
    requires
        acyclic(es),
        !reach(es, e.dst as int, e.src as int),
    ensures
        acyclic(es.push(e)),
{
    assert forall|a: int| !reach_plus(es.push(e), a, a) by {
        if reach_plus(es.push(e), a, a) {
            let p = choose|p: Seq<int>|
                is_path(es.push(e), p) && p.len() >= 2 && p.first() == a && p.last() == a;
            lemma_path_decompose(es, e, p);
            if is_path(es, p) {
                assert(reach_plus(es, a, a));
            } else {
                lemma_reach_trans(es, e.dst as int, a, e.src as int);
            }
        }
    }
}

/// The nodes whose entry in `s` is set.
pub open spec fn seen_set(s: Seq<bool>) -> Set<int> {
    Set::new(|i: int| 0 <= i < s.len() && s[i])
}

/// How many nodes of `0..n` are not yet marked in `s`.
pub open spec fn unseen_count(s: Seq<bool>, n: int) -> nat {
    vstd::set_lib::set_int_range(0, n).difference(seen_set(s)).len()
}

proof fn lemma_unseen_finite(s: Seq<bool>, n: int)
    requires
        n >= 0,
    ensures
        vstd::set_lib::set_int_range(0, n).difference(seen_set(s)).finite(),
        unseen_count(s, n) <= n,
{
    vstd::set_lib::lemma_int_range(0, n);
    let d = vstd::set_lib::set_int_range(0, n).difference(seen_set(s));
    vstd::set_lib::lemma_len_subset(d, vstd::set_lib::set_int_range(0, n));
}

/// Marking an unmarked node of `0..n` strictly decreases the unseen count.
proof fn lemma_mark_decreases(s: Seq<bool>, n: int, m: int)
    requires
        0 <= m < n,
        m < s.len(),
        !s[m],
    ensures
        unseen_count(s.update(m, true), n) < unseen_count(s, n),
        forall|n2: int| n2 >= 0 ==> unseen_count(s.update(m, true), n2) <= unseen_count(s, n2),
{
    let r = vstd::set_lib::set_int_range(0, n);
    let d0 = r.difference(seen_set(s));
    let d1 = r.difference(seen_set(s.update(m, true)));
    lemma_unseen_finite(s, n);
    lemma_unseen_finite(s.update(m, true), n);
    assert(d0 =~= d1.insert(m));
    assert(!d1.contains(m));
    assert(d0.len() == d1.len() + 1);
    assert forall|n2: int| n2 >= 0 implies unseen_count(s.update(m, true), n2) <= unseen_count(
        s,
        n2,
    ) by {
        let r2 = vstd::set_lib::set_int_range(0, n2);
        lemma_unseen_finite(s, n2);
        lemma_unseen_finite(s.update(m, true), n2);
        assert(r2.difference(seen_set(s.update(m, true))).subset_of(r2.difference(seen_set(s))));
        vstd::set_lib::lemma_len_subset(
            r2.difference(seen_set(s.update(m, true))),
            r2.difference(seen_set(s)),
        );
    }
}

/// The graph engine: node weights are canonical identities; edges carry a
/// `DepEdge` kind; insertion refuses to close a cycle.
#[derive(Debug)]
pub struct DepGraph {
    names: Vec<String>,
    edges: Vec<Edge>,
}

impl DepGraph {
    /// The node weights, by node index.
    pub closed spec fn nnames(&self) -> Seq<Seq<char>> {
        self.names.deep_view()
    }

    /// The committed edges, in insertion order.
    pub closed spec fn es(&self) -> Seq<Edge> {
        self.edges@
    }

    /// Every edge joins two existing nodes, and the graph has no cycle.
    pub open spec fn wf(&self) -> bool {
        &&& wf_edges(self.es(), self.nnames().len() as int)
        &&& acyclic(self.es())
    }

    pub fn new() -> (r: DepGraph)
        ensures
            r.wf(),
            r.nnames() == Seq::<Seq<char>>::empty(),
            r.es() == Seq::<Edge>::empty(),
    {
        let r = DepGraph { names: Vec::new(), edges: Vec::new() };
        proof {
            assert(r.nnames() =~= Seq::<Seq<char>>::empty());
            assert forall|a: int| !reach_plus(r.es(), a, a) by {
                if reach_plus(r.es(), a, a) {
                    let p = choose|p: Seq<int>|
                        is_path(r.es(), p) && p.len() >= 2 && p.first() == a && p.last() == a;
                    assert(edge_ex(r.es(), p[0], p[1]));
                }
            }
        }
        r
    }

    pub fn node_count(&self) -> (r: usize)
        ensures
            r == self.nnames().len(),
    {
        self.names.len()
    }

    pub fn add_node(&mut self, name: String) -> (idx: usize)
        requires
            old(self).wf(),
        ensures
            final(self).wf(),
            idx == old(self).nnames().len(),
            final(self).nnames() == old(self).nnames().push(name@),
            final(self).es() == old(self).es(),
    {
        let idx = self.names.len();
        self.names.push(name);
        proof {
            assert(self.nnames() =~= old(self).nnames().push(self.names@.last()@));
        }
        idx
    }

    pub fn name_at(&self, i: usize) -> (r: &String)
        requires
            i < self.nnames().len(),
        ensures
            r@ == self.nnames()[i as int],
    {
        &self.names[i]
    }

    pub fn edge_count(&self) -> (r: usize)
        ensures
            r == self.es().len(),
    {
        self.edges.len()
    }

    pub fn edge_at(&self, j: usize) -> (r: Edge)
        requires
            j < self.es().len(),
        ensures
            r == self.es()[j as int],
    {
        self.edges[j]
    }

    /// Is there an edge, of any kind, from `a` to `b`?
    #[verifier::loop_isolation(false)]
    pub fn has_edge(&self, a: usize, b: usize) -> (r: bool)
        ensures
            r == edge_ex(self.es(), a as int, b as int),
    {
        let mut j: usize = 0;
        while j < self.edges.len()
            invariant
                j <= self.es().len(),
                forall|w: int|
                    0 <= w < j ==> !((#[trigger] self.es()[w]).src == a as int && self.es()[w].dst
                        == b as int),
            decreases self.es().len() - j,
        {
            if self.edges[j].src == a && self.edges[j].dst == b {
                return true;
            }
            j = j + 1;
        }
        false
    }

    /// Is there an edge of kind `k` from `a` to `b`?
    #[verifier::loop_isolation(false)]
    pub fn has_edge_kind(&self, a: usize, b: usize, k: DepEdge) -> (r: bool)
        ensures
            r == edge_kind_ex(self.es(), a as int, b as int, k),
    {
        let mut j: usize = 0;
        while j < self.edges.len()
            invariant
                j <= self.es().len(),
                forall|w: int|
                    0 <= w < j ==> !((#[trigger] self.es()[w]).src == a as int && self.es()[w].dst
                        == b as int && self.es()[w].kind == k),
            decreases self.es().len() - j,
        {
            if self.edges[j].src == a && self.edges[j].dst == b && self.edges[j].kind == k {
                return true;
            }
            j = j + 1;
        }
        false
    }

    /// Depth-first search: can `to` be reached from `from` along edges?
    #[verifier::loop_isolation(false)]
    pub fn reachable(&self, from: usize, to: usize) -> (r: bool)
        requires
            self.wf(),
            from < self.nnames().len(),
            to < self.nnames().len(),
        ensures
            r == reach(self.es(), from as int, to as int),
    {
        let n = self.names.len();
        let ghost es = self.es();
        let mut seen: Vec<bool> = vec![false; n];
        let mut stack: Vec<usize> = Vec::new();
        seen[from] = true;
        stack.push(from);
        proof {
            broadcast use vstd::seq_lib::lemma_seq_contains_after_push;

            lemma_reach_refl(es, from as int);
            assert(stack@[0] == from);
            assert(stack@.contains(from));
        }
        while stack.len() > 0
            invariant
                seen@.len() == n,
                seen@[from as int],
                forall|i: int| 0 <= i < n && #[trigger] seen@[i] ==> reach(es, from as int, i),
                forall|j: int|
                    0 <= j < stack@.len() ==> (#[trigger] stack@[j]) < n && seen@[stack@[j] as int],
                forall|i: int, b: int|
                    0 <= i < n && seen@[i] && !stack@.contains(i as usize) && #[trigger] edge_ex(
                        es,
                        i,
                        b,
                    ) ==> 0 <= b < n && seen@[b],
            decreases unseen_count(seen@, n as int), stack@.len(),
        {
            let ghost prev = stack@;
            let x = stack.pop().unwrap();
            let ghost seen0 = seen@;
            let ghost stack0 = stack@;
            proof {
                broadcast use vstd::seq_lib::lemma_seq_contains_after_push;

                assert(prev =~= stack@.push(x));
                assert(forall|u: usize| prev.contains(u) <==> stack@.contains(u) || u == x);
            }
            let mut j: usize = 0;
            while j < self.edges.len()
                invariant
                    j <= self.es().len(),
                    seen@.len() == n,
                    x < n,
                    seen@[from as int],
                    seen@[x as int],
                    forall|i: int| 0 <= i < n && #[trigger] seen0[i] ==> seen@[i],
                    forall|i: int| 0 <= i < n && #[trigger] seen@[i] ==> reach(es, from as int, i),
                    forall|jj: int|
                        0 <= jj < stack@.len() ==> (#[trigger] stack@[jj]) < n
                            && seen@[stack@[jj] as int],
                    forall|i: int, b: int|
                        0 <= i < n && seen@[i] && i != x as int && !stack@.contains(i as usize)
                            && #[trigger] edge_ex(es, i, b) ==> 0 <= b < n && seen@[b],
                    forall|w: int|
                        0 <= w < j && (#[trigger] es[w]).src == x as int ==> 0 <= es[w].dst < n
                            && seen@[es[w].dst as int],
                    seen@ == seen0 && stack@ == stack0 || unseen_count(seen@, n as int)
                        < unseen_count(seen0, n as int),
                    unseen_count(seen@, n as int) <= unseen_count(seen0, n as int),
                decreases self.es().len() - j,
            {
                if self.edges[j].src == x {
                    let d = self.edges[j].dst;
                    if !seen[d] {
                        proof {
                            lemma_mark_decreases(seen@, n as int, d as int);
                            lemma_reach_snoc(es, from as int, x as int, d as int);
                        }
                        seen[d] = true;
                        stack.push(d);
                    }
                }
                j = j + 1;
            }
        }
        let r = seen[to];
        proof {
            if !r && reach(es, from as int, to as int) {
                let p = choose|p: Seq<int>|
                    is_path(es, p) && p.first() == from as int && p.last() == to as int;
                let s = Set::new(|i: int| 0 <= i < n && seen@[i]);
                assert forall|a2: int, b2: int|
                    s.contains(a2) && #[trigger] edge_ex(es, a2, b2) implies s.contains(b2) by {
                    assert(!stack@.contains(a2 as usize));
                }
                lemma_closed_reach(es, s, p);
            }
        }
        r
    }

    /// Insert an edge from `a` to `b`, unless that would close a cycle.
    pub fn try_add_edge(&mut self, a: usize, b: usize, kind: DepEdge) -> (r: Result<(), ()>)
        requires
            old(self).wf(),
            a < old(self).nnames().len(),
            b < old(self).nnames().len(),
        ensures
            final(self).wf(),
            final(self).nnames() == old(self).nnames(),
            match r {
                Ok(_) => !reach(old(self).es(), b as int, a as int) && final(self).es() == old(
                    self,
                ).es().push(Edge { src: a, dst: b, kind }),
                Err(_) => reach(old(self).es(), b as int, a as int) && final(self).es() == old(
                    self,
                ).es(),
            },
    {
        if self.reachable(b, a) {
            Err(())
        } else {
            proof {
                lemma_acyclic_push(self.es(), Edge { src: a, dst: b, kind });
            }
            self.edges.push(Edge { src: a, dst: b, kind });
            Ok(())
        }
    }
}

} // verus!
