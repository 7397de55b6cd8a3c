//! The resolver: registration of units, expansion of their declared
//! requirements and suggestions into graph edges, and the ancestor-ordered
//! traversal that yields the execution order.

use vstd::prelude::*;
use vstd::set_lib::lemma_len_subset;
use vstd::string::StringExecFns;

use crate::graph::DepEdge;
use crate::graph::DepGraph;
use crate::graph::Edge;
use crate::graph::edge_ex;
use crate::graph::acyclic;
use crate::graph::edge_kind_ex;
use crate::graph::is_path;
use crate::graph::lemma_reach_mono;
use crate::graph::lemma_reach_refl;
use crate::graph::lemma_reach_snoc;
use crate::graph::reach_plus;
use crate::graph::reach;
use crate::graph::seen_set;
use crate::graph::wf_edges;
use crate::keymap::KeyMap;
use crate::order::lemma_resolve_order;
use crate::order::enters_rev;
use crate::order::lemma_unwind_enters;
use crate::order::lemma_unvisited_insert;
use crate::order::unwind;
use crate::order::resolve_order;
use crate::order::lemma_visit_mono;
use crate::order::ord_int;
use crate::order::parents_of;
use crate::order::unvisited;
use crate::order::visit;
use crate::order::visit_list;

verus! {

/// Why a resolution call failed; each variant carries the offending
/// identity (or pair) for diagnostics.
#[derive(Debug)]
pub enum DepError {
    /// The named identity has no requirement list on file.
    RequirementsNotFound(String),
    /// The first identity requires the second, which is unknown.
    RequirementNotFound(String, String),
    /// The named identity has no suggestion list on file.
    SuggestionsNotFound(String),
    /// The first identity suggests the second, which is unknown.
    SuggestionNotFound(String, String),
    /// A requested root (or follows-pair member) cannot be resolved.
    DependencyNotFound(String),
    /// Linking the second identity before the first would close a cycle.
    CircularDependency(String, String),
}

/// A unit declaration: an identity, the identities it requires, the
/// identities it suggests, and the aliases it provides.
pub trait Dependency {
    /// The unit's own identity.
    spec fn key(&self) -> Seq<char>;

    /// The declared requirement keys, in declaration order.
    spec fn req_keys(&self) -> Seq<Seq<char>>;

    /// The declared suggestion keys, in declaration order.
    spec fn sugg_keys(&self) -> Seq<Seq<char>>;

    /// The provided aliases, in declaration order.
    spec fn prov_keys(&self) -> Seq<Seq<char>>;

    fn name(&self) -> (r: &String)
        ensures
            r@ == self.key(),
    ;

    fn requirements(&self) -> (r: &Vec<String>)
        ensures
            r.deep_view() == self.req_keys(),
    ;

    fn suggestions(&self) -> (r: &Vec<String>)
        ensures
            r.deep_view() == self.sugg_keys(),
    ;

    fn provides(&self) -> (r: &Vec<String>)
        ensures
            r.deep_view() == self.prov_keys(),
    ;
}

/// A plain record form of a unit declaration.
#[derive(Debug, Clone)]
pub struct InternalDependency {
    name: String,
    requirements: Vec<String>,
    suggestions: Vec<String>,
    provides: Vec<String>,
}

impl InternalDependency {
    pub fn new(
        name: String,
        requirements: Vec<String>,
        suggestions: Vec<String>,
        provides: Vec<String>,
    ) -> (r: Self)
        ensures
            r.key() == name@,
            r.req_keys() == requirements.deep_view(),
            r.sugg_keys() == suggestions.deep_view(),
            r.prov_keys() == provides.deep_view(),
    {
        InternalDependency { name, requirements, suggestions, provides }
    }
}

impl Dependency for InternalDependency {
    closed spec fn key(&self) -> Seq<char> {
        self.name@
    }

    closed spec fn req_keys(&self) -> Seq<Seq<char>> {
        self.requirements.deep_view()
    }

    closed spec fn sugg_keys(&self) -> Seq<Seq<char>> {
        self.suggestions.deep_view()
    }

    closed spec fn prov_keys(&self) -> Seq<Seq<char>> {
        self.provides.deep_view()
    }

    fn name(&self) -> (r: &String) {
        &self.name
    }

    fn requirements(&self) -> (r: &Vec<String>) {
        &self.requirements
    }

    fn suggestions(&self) -> (r: &Vec<String>) {
        &self.suggestions
    }

    fn provides(&self) -> (r: &Vec<String>) {
        &self.provides
    }
}

/// The resolver: the graph, the key registry, the declared relationship
/// lists, and the result tracker.
#[derive(Debug)]
pub struct Dependy {
    /// The graph structure, which resolution extends and walks.
    graph: DepGraph,
    /// Every canonical identity and alias, mapped to its node index.
    node_bucket: KeyMap<usize>,
    /// Whether results were successful or not.
    results: KeyMap<bool>,
    /// Every canonical identity and alias, mapped to the canonical identity.
    provides_map: KeyMap<String>,
    /// Per canonical identity, the declared requirement keys.
    requirements: KeyMap<Vec<String>>,
    /// Per canonical identity, the declared suggestion keys.
    suggestions: KeyMap<Vec<String>>,
}

/// The registries of a resolver, as one spec-level record: everything but
/// the edge list.  Predicates over `Reg` are untouched by edge insertion.
pub struct Reg {
    /// Canonical identity of each node, by node index.
    pub names: Seq<Seq<char>>,
    /// Identity or alias, to node index.
    pub bucket: Map<Seq<char>, usize>,
    /// Identity or alias, to canonical identity.
    pub prov: Map<Seq<char>, Seq<char>>,
    /// Canonical identity, to declared requirement keys.
    pub reqs: Map<Seq<char>, Seq<Seq<char>>>,
    /// Canonical identity, to declared suggestion keys.
    pub suggs: Map<Seq<char>, Seq<Seq<char>>>,
    /// Recorded outcomes.
    pub outcomes: Map<Seq<char>, bool>,
}

/// One declared step: canonical identity `a` declares a requirement or
/// suggestion key that the alias map resolves to canonical identity `b`.
pub open spec fn reg_decl_step(g: Reg, a: Seq<char>, b: Seq<char>) -> bool {
    &&& g.reqs.contains_key(a)
    &&& g.suggs.contains_key(a)
    &&& exists|k: Seq<char>|
        {
            &&& (g.reqs[a].contains(k) || g.suggs[a].contains(k))
            &&& #[trigger] g.prov.contains_key(k)
            &&& g.prov[k] == b
        }
}

/// Consecutive elements of `p` are joined by declared steps.
pub open spec fn reg_decl_path(g: Reg, p: Seq<Seq<char>>) -> bool {
    forall|i: int| 0 <= i < p.len() - 1 ==> reg_decl_step(g, #[trigger] p[i], p[i + 1])
}

/// `c` is the canonical identity of one of the requested roots.
pub open spec fn reg_root_canon(g: Reg, roots: Seq<Seq<char>>, c: Seq<char>) -> bool {
    exists|i: int|
        0 <= i < roots.len() && g.prov.contains_key(#[trigger] roots[i]) && g.prov[roots[i]] == c
}

/// `nm` belongs to the expansion of `roots`: it is reachable from a root's
/// canonical identity through declared steps.
pub open spec fn reg_in_closure(g: Reg, roots: Seq<Seq<char>>, nm: Seq<char>) -> bool {
    exists|p: Seq<Seq<char>>|
        {
            &&& #[trigger] reg_decl_path(g, p)
            &&& p.len() >= 1
            &&& reg_root_canon(g, roots, p.first())
            &&& p.last() == nm
        }
}

/// Every requested root resolves through the alias map.
pub open spec fn reg_roots_resolvable(g: Reg, roots: Seq<Seq<char>>) -> bool {
    forall|i: int| 0 <= i < roots.len() ==> g.prov.contains_key(#[trigger] roots[i])
}

/// Identity `nm`'s declared keys all resolve, and each of its declared
/// requirement and suggestion edges is already among `es`.
pub open spec fn reg_saturated(g: Reg, es: Seq<Edge>, nm: Seq<char>) -> bool {
    &&& g.reqs.contains_key(nm)
    &&& g.suggs.contains_key(nm)
    &&& g.bucket.contains_key(nm)
    &&& forall|i: int|
        0 <= i < g.reqs[nm].len() ==> {
            let k = #[trigger] g.reqs[nm][i];
            &&& g.bucket.contains_key(k)
            &&& edge_kind_ex(es, g.bucket[k] as int, g.bucket[nm] as int, DepEdge::Requires)
        }
    &&& forall|i: int|
        0 <= i < g.suggs[nm].len() ==> {
            let k = #[trigger] g.suggs[nm][i];
            &&& g.bucket.contains_key(k)
            &&& edge_kind_ex(es, g.bucket[k] as int, g.bucket[nm] as int, DepEdge::Suggests)
        }
}

/// Every consecutive root pair is settled: an edge from the earlier to the
/// later node exists among `es`, or such an edge would close a cycle.
pub open spec fn reg_follows_settled(g: Reg, es: Seq<Edge>, roots: Seq<Seq<char>>) -> bool {
    forall|i: int|
        1 <= i < roots.len() ==> {
            &&& g.bucket.contains_key(roots[i - 1])
            &&& g.bucket.contains_key(#[trigger] roots[i])
            &&& {
                let a = g.bucket[roots[i - 1]] as int;
                let b = g.bucket[roots[i]] as int;
                edge_ex(es, a, b) || reach(es, b, a)
            }
        }
}

/// `e` is a declared requirement or suggestion edge of identity `nm`.
pub open spec fn reg_req_edge_decl(g: Reg, nm: Seq<char>, e: Edge) -> bool {
    &&& g.reqs.contains_key(nm)
    &&& g.suggs.contains_key(nm)
    &&& g.bucket.contains_key(nm)
    &&& e.dst == g.bucket[nm]
    &&& exists|k: Seq<char>|
        {
            &&& (e.kind == DepEdge::Requires && g.reqs[nm].contains(k) || e.kind
                == DepEdge::Suggests && g.suggs[nm].contains(k))
            &&& #[trigger] g.bucket.contains_key(k)
            &&& e.src == g.bucket[k]
        }
}

/// `e` is an edge resolution is allowed to commit for `roots`: a declared
/// edge of an expanded identity, or a follows edge of a consecutive pair.
pub open spec fn reg_edge_from_decl(g: Reg, roots: Seq<Seq<char>>, e: Edge) -> bool {
    ||| exists|nm: Seq<char>| #[trigger] reg_in_closure(g, roots, nm) && reg_req_edge_decl(
        g,
        nm,
        e,
    )
    ||| (e.kind == DepEdge::Follows && exists|i: int|
        {
            &&& 1 <= i < roots.len()
            &&& g.bucket.contains_key(roots[i - 1])
            &&& #[trigger] g.bucket.contains_key(roots[i])
            &&& e.src == g.bucket[roots[i - 1]]
            &&& e.dst == g.bucket[roots[i]]
        })
}

/// Every `Follows` edge committed at position `pre_len` or later is the
/// only edge in that direction between its endpoints at the time it was
/// committed: no earlier edge joins the same ordered pair.
pub open spec fn follows_fresh_in(pre_len: int, es: Seq<Edge>) -> bool {
    forall|j: int|
        pre_len <= j < es.len() && (#[trigger] es[j]).kind == DepEdge::Follows ==> forall|w: int|
            0 <= w < j ==> !((#[trigger] es[w]).src == es[j].src && es[w].dst == es[j].dst)
}

/// The key `q` may sit in the work queue: it is a requested root, or a
/// declared key of an already expanded identity.
pub open spec fn queued_ok(g: Reg, roots: Seq<Seq<char>>, seenq: Seq<Seq<char>>, q: Seq<char>) -> bool {
    ||| roots.contains(q)
    ||| exists|nm: Seq<char>|
        {
            &&& #[trigger] seenq.contains(nm)
            &&& g.reqs.contains_key(nm)
            &&& g.suggs.contains_key(nm)
            &&& (g.reqs[nm].contains(q) || g.suggs[nm].contains(q))
        }
}

/// The key `k` is settled for the expansion: still queued, or resolved to an
/// already expanded identity.
pub open spec fn key_settled(g: Reg, seenq: Seq<Seq<char>>, queue: Seq<Seq<char>>, k: Seq<char>) -> bool {
    ||| queue.contains(k)
    ||| (g.prov.contains_key(k) && seenq.contains(g.prov[k]))
}

/// Every declared key of every expanded identity is settled.
pub open spec fn expansion_pending(g: Reg, seenq: Seq<Seq<char>>, queue: Seq<Seq<char>>) -> bool {
    &&& forall|nm: Seq<char>, i: int|
        seenq.contains(nm) && g.reqs.contains_key(nm) && 0 <= i < g.reqs[nm].len()
            ==> key_settled(g, seenq, queue, #[trigger] g.reqs[nm][i])
    &&& forall|nm: Seq<char>, i: int|
        seenq.contains(nm) && g.suggs.contains_key(nm) && 0 <= i < g.suggs[nm].len()
            ==> key_settled(g, seenq, queue, #[trigger] g.suggs[nm][i])
}

/// What each error of the expansion phase says of the state.
pub open spec fn expand_err(g: Reg, es: Seq<Edge>, roots: Seq<Seq<char>>, e: DepError) -> bool {
    match e {
        DepError::DependencyNotFound(k) => !g.prov.contains_key(k@) && (roots.contains(k@)
            || exists|nm: Seq<char>|
            {
                &&& #[trigger] reg_in_closure(g, roots, nm)
                &&& g.reqs.contains_key(nm)
                &&& g.suggs.contains_key(nm)
                &&& (g.reqs[nm].contains(k@) || g.suggs[nm].contains(k@))
            }) && (forall|i: int|
            0 <= i < roots.len() && !g.prov.contains_key(#[trigger] roots[i]) && (forall|w: int|
                0 <= w < i ==> g.prov.contains_key(#[trigger] roots[w])) ==> k@ == roots[i]),
        DepError::RequirementsNotFound(_) => false,
        DepError::SuggestionsNotFound(_) => false,
        DepError::RequirementNotFound(nm, k) => reg_in_closure(g, roots, nm@)
            && g.reqs.contains_key(nm@) && g.reqs[nm@].contains(k@) && !g.bucket.contains_key(k@),
        DepError::SuggestionNotFound(nm, k) => reg_in_closure(g, roots, nm@)
            && g.suggs.contains_key(nm@) && g.suggs[nm@].contains(k@) && !g.bucket.contains_key(
            k@,
        ),
        DepError::CircularDependency(nm, k) => reg_in_closure(g, roots, nm@)
            && g.bucket.contains_key(nm@) && g.bucket.contains_key(k@) && (g.reqs.contains_key(nm@)
            && g.reqs[nm@].contains(k@) || g.suggs.contains_key(nm@) && g.suggs[nm@].contains(k@))
            && reach(es, g.bucket[nm@] as int, g.bucket[k@] as int),
    }
}

/// A one-element declared path: a root's canonical identity is expanded.
pub proof fn lemma_closure_root(g: Reg, roots: Seq<Seq<char>>, i: int)
    requires
        0 <= i < roots.len(),
        g.prov.contains_key(roots[i]),
    ensures
        reg_in_closure(g, roots, g.prov[roots[i]]),
{
    let p = seq![g.prov[roots[i]]];
    assert(reg_decl_path(g, p));
    assert(reg_root_canon(g, roots, p.first()));
    assert(p.last() == g.prov[roots[i]]);
}

/// A declared path extends by one declared step.
pub proof fn lemma_closure_step(g: Reg, roots: Seq<Seq<char>>, nm: Seq<char>, c: Seq<char>)
    requires
        reg_in_closure(g, roots, nm),
        reg_decl_step(g, nm, c),
    ensures
        reg_in_closure(g, roots, c),
{
    let p = choose|p: Seq<Seq<char>>|
        {
            &&& #[trigger] reg_decl_path(g, p)
            &&& p.len() >= 1
            &&& reg_root_canon(g, roots, p.first())
            &&& p.last() == nm
        };
    let p2 = p.push(c);
    assert forall|i: int| 0 <= i < p2.len() - 1 implies reg_decl_step(
        g,
        #[trigger] p2[i],
        p2[i + 1],
    ) by {
        if i < p.len() - 1 {
            assert(reg_decl_step(g, p[i], p[i + 1]));
        } else {
            assert(p2[i] == nm && p2[i + 1] == c);
        }
    }
    assert(reg_decl_path(g, p2));
    assert(reg_root_canon(g, roots, p2.first()));
    assert(p2.first() == p.first() && p2.last() == c && p2.len() >= 1);
}

/// A set of identities that contains a path's head and is closed under
/// declared steps contains the path's end.
pub proof fn lemma_decl_path_closed(g: Reg, seenq: Seq<Seq<char>>, p: Seq<Seq<char>>)
    requires
        reg_decl_path(g, p),
        p.len() >= 1,
        seenq.contains(p.first()),
        forall|nm: Seq<char>, c: Seq<char>|
            seenq.contains(nm) && #[trigger] reg_decl_step(g, nm, c) ==> seenq.contains(c),
    ensures
        seenq.contains(p.last()),
    decreases p.len(),
{
    if p.len() > 1 {
        let q = p.drop_last();
        assert(reg_decl_path(g, q));
        lemma_decl_path_closed(g, seenq, q);
        assert(reg_decl_step(g, p[p.len() - 2], p[p.len() - 1]));
    }
}

/// Saturation only speaks of committed edges, so it survives edge insertion.
pub proof fn lemma_saturated_mono(g: Reg, es1: Seq<Edge>, es2: Seq<Edge>, nm: Seq<char>)
    requires
        reg_saturated(g, es1, nm),
        es1.is_prefix_of(es2),
    ensures
        reg_saturated(g, es2, nm),
{
    assert forall|i: int| 0 <= i < g.reqs[nm].len() implies {
        let k = #[trigger] g.reqs[nm][i];
        &&& g.bucket.contains_key(k)
        &&& edge_kind_ex(es2, g.bucket[k] as int, g.bucket[nm] as int, DepEdge::Requires)
    } by {
        let k = g.reqs[nm][i];
        crate::graph::lemma_edge_kind_ex_mono(
            es1,
            es2,
            g.bucket[k] as int,
            g.bucket[nm] as int,
            DepEdge::Requires,
        );
    }
    assert forall|i: int| 0 <= i < g.suggs[nm].len() implies {
        let k = #[trigger] g.suggs[nm][i];
        &&& g.bucket.contains_key(k)
        &&& edge_kind_ex(es2, g.bucket[k] as int, g.bucket[nm] as int, DepEdge::Suggests)
    } by {
        let k = g.suggs[nm][i];
        crate::graph::lemma_edge_kind_ex_mono(
            es1,
            es2,
            g.bucket[k] as int,
            g.bucket[nm] as int,
            DepEdge::Suggests,
        );
    }
}

/// Two duplicate-free sequences, one contained in the other, bound each
/// other's lengths.
pub proof fn lemma_distinct_len(a: Seq<Seq<char>>, b: Seq<Seq<char>>)
    requires
        a.no_duplicates(),
        b.no_duplicates(),
        forall|x: Seq<char>| a.contains(x) ==> b.contains(x),
    ensures
        a.len() <= b.len(),
{
    broadcast use vstd::seq_lib::seq_to_set_is_finite;

    a.unique_seq_to_set();
    b.unique_seq_to_set();
    assert(a.to_set().subset_of(b.to_set()));
    lemma_len_subset(a.to_set(), b.to_set());
}

/// Does the list hold this identity?
#[verifier::loop_isolation(false)]
fn vec_contains_str(v: &Vec<String>, x: &String) -> (r: bool)
    ensures
        r == v.deep_view().contains(x@),
{
    let mut i: usize = 0;
    while i < v.len()
        invariant
            i <= v@.len(),
            forall|m: int| 0 <= m < i ==> v@[m]@ != x@,
        decreases v@.len() - i,
    {
        if v[i] == *x {
            proof {
                assert(v.deep_view()[i as int] == x@);
            }
            return true;
        }
        i = i + 1;
    }
    proof {
        if v.deep_view().contains(x@) {
            let m = choose|m: int| 0 <= m < v.deep_view().len() && v.deep_view()[m] == x@;
            assert(v@[m]@ == x@);
        }
    }
    false
}

/// An element-wise copy of a list of identities.
#[verifier::loop_isolation(false)]
fn clone_string_vec(v: &Vec<String>) -> (r: Vec<String>)
    ensures
        r.deep_view() == v.deep_view(),
        r@.len() == v@.len(),
{
    let mut r: Vec<String> = Vec::new();
    let mut i: usize = 0;
    while i < v.len()
        invariant
            i <= v@.len(),
            r@.len() == i,
            forall|m: int| 0 <= m < i ==> r@[m]@ == v@[m]@,
        decreases v@.len() - i,
    {
        r.push(v[i].clone());
        i = i + 1;
    }
    proof {
        assert(r.deep_view() =~= v.deep_view());
    }
    r
}

impl Dependy {
    /// The canonical identity of each node, by node index.
    pub closed spec fn names(&self) -> Seq<Seq<char>> {
        self.graph.nnames()
    }

    /// The edges committed so far, in insertion order.
    pub closed spec fn edge_list(&self) -> Seq<Edge> {
        self.graph.es()
    }

    /// Identity or alias, to node index.
    pub closed spec fn bucket(&self) -> Map<Seq<char>, usize> {
        self.node_bucket@
    }

    /// Identity or alias, to canonical identity.
    pub closed spec fn prov(&self) -> Map<Seq<char>, Seq<char>> {
        self.provides_map@
    }

    /// Canonical identity, to declared requirement keys.
    pub closed spec fn reqs(&self) -> Map<Seq<char>, Seq<Seq<char>>> {
        self.requirements@
    }

    /// Canonical identity, to declared suggestion keys.
    pub closed spec fn suggs(&self) -> Map<Seq<char>, Seq<Seq<char>>> {
        self.suggestions@
    }

    /// Recorded outcomes.
    pub closed spec fn outcomes(&self) -> Map<Seq<char>, bool> {
        self.results@
    }

    /// The resolver's invariant: the registries agree with each other and
    /// with the graph, canonical identities are distinct, and the graph is a
    /// well-formed DAG.
    pub closed spec fn wf(&self) -> bool {
        &&& self.graph.wf()
        &&& self.edge_list().no_duplicates()
        &&& self.node_bucket.wf()
        &&& self.results.wf()
        &&& self.provides_map.wf()
        &&& self.requirements.wf()
        &&& self.suggestions.wf()
        &&& self.names().no_duplicates()
        &&& self.reqs().dom() =~= self.names().to_set()
        &&& self.suggs().dom() =~= self.names().to_set()
        &&& self.bucket().dom() =~= self.prov().dom()
        &&& forall|k: Seq<char>| #[trigger] self.bucket().dom().contains(k) ==> {
            &&& self.bucket()[k] < self.names().len()
            &&& self.prov()[k] == self.names()[self.bucket()[k] as int]
        }
        &&& forall|nm: Seq<char>| self.names().to_set().contains(nm)
            ==> #[trigger] self.bucket().dom().contains(nm)
    }

    /// The registry record of this resolver.
    pub open spec fn reg(&self) -> Reg {
        Reg {
            names: self.names(),
            bucket: self.bucket(),
            prov: self.prov(),
            reqs: self.reqs(),
            suggs: self.suggs(),
            outcomes: self.outcomes(),
        }
    }

    /// Every requested root resolves through the alias map.
    pub open spec fn roots_resolvable(&self, roots: Seq<Seq<char>>) -> bool {
        reg_roots_resolvable(self.reg(), roots)
    }

    /// Every consecutive root pair is settled.
    pub open spec fn follows_settled(&self, roots: Seq<Seq<char>>) -> bool {
        reg_follows_settled(self.reg(), self.edge_list(), roots)
    }

    /// `e` is an edge resolution may commit for `roots`.
    pub open spec fn edge_from_decl(&self, roots: Seq<Seq<char>>, e: Edge) -> bool {
        reg_edge_from_decl(self.reg(), roots, e)
    }

    /// The registries are untouched: only the edge list may differ.
    pub open spec fn same_registrations(&self, other: Dependy) -> bool {
        self.reg() == other.reg()
    }

    /// The graph nodes the roots resolve to, in request order.
    pub open spec fn root_nodes(&self, roots: Seq<Seq<char>>) -> Seq<int> {
        reg_root_nodes(self.reg(), roots)
    }

    /// Node indices, replaced by their canonical identities.
    pub open spec fn seq_names(&self, idxs: Seq<int>) -> Seq<Seq<char>> {
        reg_seq_names(self.reg(), idxs)
    }

    /// The direct `Requires` predecessors of the node `t`, by canonical
    /// identity, in edge insertion order.
    pub open spec fn req_parent_names(&self, t: int) -> Seq<Seq<char>> {
        self.edge_list().filter(
            |e: Edge| e.dst == t && e.kind == DepEdge::Requires,
        ).map_values(|e: Edge| self.names()[e.src as int])
    }

    pub fn new() -> (r: Dependy)
        ensures
            r.wf(),
            r.names() == Seq::<Seq<char>>::empty(),
            r.edge_list() == Seq::<Edge>::empty(),
            r.bucket() == Map::<Seq<char>, usize>::empty(),
            r.prov() == Map::<Seq<char>, Seq<char>>::empty(),
            r.reqs() == Map::<Seq<char>, Seq<Seq<char>>>::empty(),
            r.suggs() == Map::<Seq<char>, Seq<Seq<char>>>::empty(),
            r.outcomes() == Map::<Seq<char>, bool>::empty(),
    {
        let r = Dependy {
            graph: DepGraph::new(),
            node_bucket: KeyMap::new(),
            results: KeyMap::new(),
            provides_map: KeyMap::new(),
            requirements: KeyMap::new(),
            suggestions: KeyMap::new(),
        };
        proof {
            assert(r.reqs().dom() =~= r.names().to_set());
            assert(r.suggs().dom() =~= r.names().to_set());
            assert(r.bucket().dom() =~= r.prov().dom());
        }
        r
    }

    /// Register a unit: create its node, record its alias mappings and its
    /// requirement and suggestion lists.  Each identity is declared once;
    /// re-declaring an already registered identity is excluded by contract.
    #[verifier::loop_isolation(false)]
    pub fn add_dependency<T: Dependency>(&mut self, dependency: &T)
        requires
            old(self).wf(),
            !old(self).reqs().contains_key(dependency.key()),
        ensures
            final(self).wf(),
            final(self).names() == old(self).names().push(dependency.key()),
            final(self).edge_list() == old(self).edge_list(),
            final(self).outcomes() == old(self).outcomes(),
            final(self).reqs() == old(self).reqs().insert(
                dependency.key(),
                dependency.req_keys(),
            ),
            final(self).suggs() == old(self).suggs().insert(
                dependency.key(),
                dependency.sugg_keys(),
            ),
            final(self).bucket() == insert_each(
                old(self).bucket().insert(dependency.key(), old(self).names().len() as usize),
                dependency.prov_keys(),
                old(self).names().len() as usize,
            ),
            final(self).prov() == insert_each(
                old(self).prov().insert(dependency.key(), dependency.key()),
                dependency.prov_keys(),
                dependency.key(),
            ),
    {
        broadcast use vstd::seq::Seq::lemma_take_succ_push;

        let ghost pre = *old(self);
        let ghost key = dependency.key();
        let ghost idx_u = pre.names().len() as usize;
        let ghost provs = dependency.prov_keys();
        let name = dependency.name().clone();
        let new_node = self.graph.add_node(name.clone());
        self.node_bucket.insert(name.clone(), new_node);
        self.provides_map.insert(name.clone(), name.clone());
        proof {
            assert(provs.take(0) =~= Seq::<Seq<char>>::empty());
            assert(self.bucket() == insert_each(
                pre.bucket().insert(key, idx_u),
                provs.take(0),
                idx_u,
            ));
            assert(self.prov() == insert_each(pre.prov().insert(key, key), provs.take(0), key));
        }
        let provides = dependency.provides();
        let mut i: usize = 0;
        while i < provides.len()
            invariant
                i <= provs.len(),
                provides.deep_view() == provs,
                new_node == idx_u,
                name@ == key,
                self.names() == pre.names().push(key),
                self.edge_list() == pre.edge_list(),
                self.reqs() == pre.reqs(),
                self.suggs() == pre.suggs(),
                self.outcomes() == pre.outcomes(),
                self.node_bucket.wf(),
                self.provides_map.wf(),
                self.requirements.wf(),
                self.suggestions.wf(),
                self.results.wf(),
                self.graph.wf(),
                self.bucket() == insert_each(
                    pre.bucket().insert(key, idx_u),
                    provs.take(i as int),
                    idx_u,
                ),
                self.prov() == insert_each(
                    pre.prov().insert(key, key),
                    provs.take(i as int),
                    key,
                ),
            decreases provs.len() - i,
        {
            let alias = provides[i].clone();
            proof {
                assert(alias@ == provs[i as int]);
            }
            self.node_bucket.insert(alias.clone(), new_node);
            self.provides_map.insert(alias, name.clone());
            proof {
                assert(provs.take(i + 1).drop_last() =~= provs.take(i as int));
                assert(provs.take(i + 1).last() == provs[i as int]);
            }
            i = i + 1;
        }
        proof {
            assert(provs.take(provs.len() as int) =~= provs);
        }
        self.suggestions.insert(name.clone(), clone_string_vec(dependency.suggestions()));
        self.requirements.insert(name, clone_string_vec(dependency.requirements()));
        proof {
            broadcast use vstd::seq::Seq::lemma_push_to_set_commute;
            broadcast use vstd::seq_lib::lemma_seq_contains_after_push;

            let names2 = pre.names().push(key);
            assert(!pre.names().contains(key)) by {
                if pre.names().contains(key) {
                    assert(pre.names().to_set().contains(key));
                }
            }
            assert(names2.no_duplicates()) by {
                assert forall|a: int, b: int|
                    0 <= a < names2.len() && 0 <= b < names2.len() && a != b implies names2[a]
                    != names2[b] by {
                    if a < pre.names().len() && b < pre.names().len() {
                        assert(pre.names()[a] != pre.names()[b]);
                    } else if b == pre.names().len() {
                        assert(pre.names().contains(pre.names()[a]) && names2[b] == key);
                    } else {
                        assert(pre.names().contains(pre.names()[b]) && names2[a] == key);
                    }
                }
            }
            assert(self.reqs().dom() =~= names2.to_set());
            assert(self.suggs().dom() =~= names2.to_set());
            assert forall|k: Seq<char>| true implies (self.bucket().contains_key(k)
                <==> self.prov().contains_key(k)) by {
                lemma_insert_each_get(pre.bucket().insert(key, idx_u), provs, idx_u, k);
                lemma_insert_each_get(pre.prov().insert(key, key), provs, key, k);
            }
            assert(self.bucket().dom() =~= self.prov().dom());
            assert forall|k: Seq<char>| #[trigger] self.bucket().dom().contains(k) implies {
                &&& self.bucket()[k] < self.names().len()
                &&& self.prov()[k] == self.names()[self.bucket()[k] as int]
            } by {
                lemma_insert_each_get(pre.bucket().insert(key, idx_u), provs, idx_u, k);
                lemma_insert_each_get(pre.prov().insert(key, key), provs, key, k);
                if provs.contains(k) {
                    assert(self.bucket()[k] == idx_u && self.prov()[k] == key);
                    assert(self.names()[idx_u as int] == key);
                } else if k == key {
                    assert(self.bucket()[k] == idx_u && self.prov()[k] == key);
                    assert(self.names()[idx_u as int] == key);
                } else {
                    assert(pre.bucket().contains_key(k));
                    assert(self.bucket()[k] == pre.bucket()[k]);
                    assert(self.prov()[k] == pre.prov()[k]);
                    assert(self.names()[pre.bucket()[k] as int] == pre.names()[pre.bucket()[k] as int]);
                }
            }
            assert forall|nm: Seq<char>| self.names().to_set().contains(nm)
                implies #[trigger] self.bucket().dom().contains(nm) by {
                lemma_insert_each_get(pre.bucket().insert(key, idx_u), provs, idx_u, nm);
                if nm != key {
                    assert(pre.names().contains(nm));
                    assert(pre.names().to_set().contains(nm));
                }
            }
            assert(self.wf());
        }
    }

    /// Record an identity's outcome as successful.
    pub fn mark_successful(&mut self, dep: &String)
        requires
            old(self).wf(),
        ensures
            final(self).wf(),
            final(self).outcomes() == old(self).outcomes().insert(dep@, true),
            final(self).names() == old(self).names(),
            final(self).edge_list() == old(self).edge_list(),
            final(self).bucket() == old(self).bucket(),
            final(self).prov() == old(self).prov(),
            final(self).reqs() == old(self).reqs(),
            final(self).suggs() == old(self).suggs(),
    {
        self.results.insert(dep.clone(), true);
    }

    /// Record an identity's outcome as failed.
    pub fn mark_failure(&mut self, dep: &String)
        requires
            old(self).wf(),
        ensures
            final(self).wf(),
            final(self).outcomes() == old(self).outcomes().insert(dep@, false),
            final(self).names() == old(self).names(),
            final(self).edge_list() == old(self).edge_list(),
            final(self).bucket() == old(self).bucket(),
            final(self).prov() == old(self).prov(),
            final(self).reqs() == old(self).reqs(),
            final(self).suggs() == old(self).suggs(),
    {
        self.results.insert(dep.clone(), false);
    }

    /// Forget all recorded outcomes; the graph is untouched.
    pub fn reset_results(&mut self)
        requires
            old(self).wf(),
        ensures
            final(self).wf(),
            final(self).outcomes() == Map::<Seq<char>, bool>::empty(),
            final(self).names() == old(self).names(),
            final(self).edge_list() == old(self).edge_list(),
            final(self).bucket() == old(self).bucket(),
            final(self).prov() == old(self).prov(),
            final(self).reqs() == old(self).reqs(),
            final(self).suggs() == old(self).suggs(),
    {
        self.results.clear();
    }
}

impl Dependy {
    /// The nodes with a direct `Requires` edge into `name`'s node, in edge
    /// insertion order; `Suggests` and `Follows` predecessors are excluded.
    #[verifier::loop_isolation(false)]
    pub fn required_parents_of_named<'a>(&'a self, name: &String) -> (r: Vec<&'a String>)
        requires
            self.wf(),
            self.bucket().contains_key(name@),
        ensures
            r.deep_view() == self.req_parent_names(self.bucket()[name@] as int),
            r.deep_view().no_duplicates(),
    {
        broadcast use vstd::seq::Seq::lemma_filter_push;
        broadcast use vstd::seq::Seq::lemma_push_map_commute;
        broadcast use vstd::seq::Seq::lemma_take_succ_push;

        let t = match self.node_bucket.get(name) {
            Some(v) => *v,
            None => {
                proof {
                    assert(false);
                }
                0
            },
        };
        let ghost tt = t as int;
        let ghost pred = |e: Edge| e.dst == tt && e.kind == DepEdge::Requires;
        let mut r: Vec<&'a String> = Vec::new();
        let mut j: usize = 0;
        while j < self.graph.edge_count()
            invariant
                j <= self.edge_list().len(),
                r.deep_view() == self.edge_list().take(j as int).filter(pred).map_values(
                    |e: Edge| self.names()[e.src as int],
                ),
            decreases self.edge_list().len() - j,
        {
            let e = self.graph.edge_at(j);
            proof {
                assert(self.edge_list().take(j + 1) == self.edge_list().take(j as int).push(
                    self.edge_list()[j as int],
                ));
            }
            let ghost r0 = r.deep_view();
            if e.dst == t && matches!(e.kind, DepEdge::Requires) {
                r.push(self.graph.name_at(e.src));
                proof {
                    assert(r.deep_view() =~= r0.push(self.names()[e.src as int]));
                }
            }
            proof {
                let f0 = self.edge_list().take(j as int).filter(pred);
                let f1 = self.edge_list().take(j + 1).filter(pred);
                if pred(e) {
                    assert(f1 == f0.push(e));
                } else {
                    assert(f1 == f0);
                }
            }
            j = j + 1;
        }
        proof {
            assert(self.edge_list().take(self.edge_list().len() as int) == self.edge_list());
            // each parent appears once: the edge list is duplicate-free, and
            // distinct Requires edges into one node have distinct sources
            let es = self.edge_list();
            let fil = es.filter(pred);
            crate::graph::lemma_filter_no_dup(es, pred);
            let dv = r.deep_view();
            assert forall|x: int, y: int|
                0 <= x < dv.len() && 0 <= y < dv.len() && x != y implies dv[x] != dv[y] by {
                assert(dv[x] == self.names()[fil[x].src as int]);
                assert(dv[y] == self.names()[fil[y].src as int]);
                assert(fil.contains(fil[x]) && fil.contains(fil[y]));
                es.lemma_filter_contains_rev(pred, fil[x]);
                es.lemma_filter_contains_rev(pred, fil[y]);
                let wx = choose|w: int| 0 <= w < es.len() && es[w] == fil[x];
                let wy = choose|w: int| 0 <= w < es.len() && es[w] == fil[y];
                assert((fil[x].src as int) < self.names().len());
                assert((fil[y].src as int) < self.names().len());
                if dv[x] == dv[y] {
                    assert(self.names().no_duplicates());
                    assert(fil[x].src == fil[y].src);
                    assert(pred(fil[x]) && pred(fil[y]));
                    assert(fil[x] == fil[y]);
                }
            }
        }
        r
    }

    /// Walk the requested roots pairwise and commit an advisory `Follows`
    /// edge for each consecutive pair that no edge orders yet; a follows
    /// edge that would close a cycle is silently dropped.
    #[verifier::loop_isolation(false)]
    fn add_follows(&mut self, deps: &Vec<String>) -> (r: Result<(), DepError>)
        requires
            old(self).wf(),
            old(self).roots_resolvable(deps.deep_view()),
        ensures
            final(self).wf(),
            final(self).same_registrations(*old(self)),
            old(self).edge_list().is_prefix_of(final(self).edge_list()),
            r.is_ok(),
            final(self).follows_settled(deps.deep_view()),
            forall|j: int|
                old(self).edge_list().len() <= j < final(self).edge_list().len()
                    ==> final(self).edge_from_decl(
                    deps.deep_view(),
                    #[trigger] final(self).edge_list()[j],
                ),
            forall|j: int|
                old(self).edge_list().len() <= j < final(self).edge_list().len()
                    ==> (#[trigger] final(self).edge_list()[j]).kind == DepEdge::Follows,
            follows_fresh_in(old(self).edge_list().len() as int, final(self).edge_list()),
            old(self).follows_settled(deps.deep_view()) ==> final(self).edge_list() == old(
                self,
            ).edge_list(),
    {
        let ghost roots = deps.deep_view();
        let ghost pre = *old(self);
        let num_deps = deps.len();
        if num_deps == 0 {
            return Ok(());
        }
        let mut i: usize = 1;
        while i < num_deps
            invariant
                1 <= i <= deps@.len(),
                self.wf(),
                self.same_registrations(pre),
                pre.edge_list().is_prefix_of(self.edge_list()),
                forall|w: int|
                    1 <= w < i ==> {
                        &&& self.bucket().contains_key(roots[w - 1])
                        &&& self.bucket().contains_key(#[trigger] roots[w])
                        &&& {
                            let a = self.bucket()[roots[w - 1]] as int;
                            let b = self.bucket()[roots[w]] as int;
                            edge_ex(self.edge_list(), a, b) || reach(self.edge_list(), b, a)
                        }
                    },
                forall|j: int|
                    pre.edge_list().len() <= j < self.edge_list().len()
                        ==> self.edge_from_decl(roots, #[trigger] self.edge_list()[j]),
                forall|j: int|
                    pre.edge_list().len() <= j < self.edge_list().len()
                        ==> (#[trigger] self.edge_list()[j]).kind == DepEdge::Follows,
                follows_fresh_in(pre.edge_list().len() as int, self.edge_list()),
                pre.follows_settled(roots) ==> self.edge_list() == pre.edge_list(),
            decreases deps@.len() - i,
        {
            let ghost mid = *self;
            let previous_edge = match self.node_bucket.get(&deps[i - 1]) {
                Some(s) => *s,
                None => {
                    proof {
                        assert(pre.prov().contains_key(roots[i - 1]));
                        assert(false);
                    }
                    return Err(DepError::DependencyNotFound(deps[i - 1].clone()));
                },
            };
            let this_edge = match self.node_bucket.get(&deps[i]) {
                Some(s) => *s,
                None => {
                    proof {
                        assert(pre.prov().contains_key(roots[i as int]));
                        assert(false);
                    }
                    return Err(DepError::DependencyNotFound(deps[i].clone()));
                },
            };
            proof {
                assert(roots[i - 1] == deps@[i - 1]@ && roots[i as int] == deps@[i as int]@);
                assert(previous_edge == self.bucket()[roots[i - 1]]);
                assert(this_edge == self.bucket()[roots[i as int]]);
            }
            if !self.graph.has_edge(previous_edge, this_edge) {
                // a cyclic follows edge is advisory only: drop it silently
                let _ = self.graph.try_add_edge(previous_edge, this_edge, DepEdge::Follows);
            }
            proof {
                assert(self.reg() == pre.reg());
                assert forall|w: int|
                    1 <= w < i + 1 implies {
                    &&& self.bucket().contains_key(roots[w - 1])
                    &&& self.bucket().contains_key(#[trigger] roots[w])
                    &&& {
                        let a = self.bucket()[roots[w - 1]] as int;
                        let b = self.bucket()[roots[w]] as int;
                        edge_ex(self.edge_list(), a, b) || reach(self.edge_list(), b, a)
                    }
                } by {
                    let a = self.bucket()[roots[w - 1]] as int;
                    let b = self.bucket()[roots[w]] as int;
                    if w < i {
                        if edge_ex(mid.edge_list(), a, b) {
                            crate::graph::lemma_edge_ex_mono(
                                mid.edge_list(),
                                self.edge_list(),
                                a,
                                b,
                            );
                        } else {
                            lemma_reach_mono(mid.edge_list(), self.edge_list(), b, a);
                        }
                    } else {
                        if edge_ex(mid.edge_list(), a, b) {
                            crate::graph::lemma_edge_ex_mono(
                                mid.edge_list(),
                                self.edge_list(),
                                a,
                                b,
                            );
                        } else if self.edge_list().len() > mid.edge_list().len() {
                            assert(self.edge_list()[mid.edge_list().len() as int] == (Edge {
                                src: previous_edge,
                                dst: this_edge,
                                kind: DepEdge::Follows,
                            }));
                            assert(edge_ex(self.edge_list(), a, b));
                        }
                    }
                }
                assert(pre.edge_list().is_prefix_of(self.edge_list()));
                assert forall|j: int|
                    pre.edge_list().len() <= j < self.edge_list().len() implies self.edge_from_decl(
                    roots,
                    #[trigger] self.edge_list()[j],
                ) by {
                    if j < mid.edge_list().len() {
                        assert(self.edge_list()[j] == mid.edge_list()[j]);
                        assert(mid.edge_from_decl(roots, mid.edge_list()[j]));
                    } else {
                        let e = self.edge_list()[j];
                        assert(e == (Edge {
                            src: previous_edge,
                            dst: this_edge,
                            kind: DepEdge::Follows,
                        }));
                        assert(self.bucket().contains_key(roots[i as int]));
                        assert(self.edge_from_decl(roots, e));
                    }
                }
                if self.edge_list().len() > mid.edge_list().len() {
                    let e2 = self.edge_list()[mid.edge_list().len() as int];
                    assert(e2 == (Edge {
                        src: previous_edge,
                        dst: this_edge,
                        kind: DepEdge::Follows,
                    }));
                    assert forall|w: int| 0 <= w < mid.edge_list().len() implies !((
                    #[trigger] self.edge_list()[w]).src == e2.src && self.edge_list()[w].dst
                        == e2.dst) by {
                        assert(self.edge_list()[w] == mid.edge_list()[w]);
                        if mid.edge_list()[w].src == e2.src && mid.edge_list()[w].dst == e2.dst {
                            assert(edge_ex(
                                mid.edge_list(),
                                previous_edge as int,
                                this_edge as int,
                            ));
                        }
                    }
                    assert(self.edge_list().no_duplicates()) by {
                        assert forall|x: int, y: int|
                            0 <= x < self.edge_list().len() && 0 <= y < self.edge_list().len()
                                && x != y implies self.edge_list()[x] != self.edge_list()[y] by {
                            if x < mid.edge_list().len() && y < mid.edge_list().len() {
                                assert(mid.edge_list().no_duplicates());
                                assert(self.edge_list()[x] == mid.edge_list()[x]);
                                assert(self.edge_list()[y] == mid.edge_list()[y]);
                            } else if y == mid.edge_list().len() {
                                assert(self.edge_list()[y] == e2);
                            } else {
                                assert(self.edge_list()[x] == e2);
                            }
                        }
                    }
                }
                if pre.follows_settled(roots) {
                    assert(mid.edge_list() == pre.edge_list());
                    let a2 = self.bucket()[roots[i - 1]] as int;
                    let b2 = self.bucket()[roots[i as int]] as int;
                    assert(edge_ex(pre.edge_list(), a2, b2) || reach(pre.edge_list(), b2, a2));
                    assert(self.edge_list() == pre.edge_list());
                }
            }
            i = i + 1;
        }
        Ok(())
    }

    /// Walk the requested roots in order, pulling each root's ancestor chain
    /// in ahead of it, and emit the canonical identities in visit order.
    #[verifier::loop_isolation(false)]
    fn build_order(&self, deps: &Vec<String>) -> (r: Vec<String>)
        requires
            self.wf(),
            self.roots_resolvable(deps.deep_view()),
        ensures
            r.deep_view() == self.seq_names(
                resolve_order(
                    self.edge_list(),
                    self.names().len() as int,
                    self.root_nodes(deps.deep_view()),
                ),
            ),
    {
        let ghost roots = deps.deep_view();
        let ghost es = self.edge_list();
        let ghost n_int = self.names().len() as int;
        let ghost rn = self.root_nodes(roots);
        let ghost target = visit_list(es, n_int, Set::<int>::empty(), Seq::<int>::empty(), rn);
        let n = self.graph.node_count();
        let mut seen: Vec<bool> = vec![false; n];
        let mut ordi: Vec<usize> = Vec::new();
        proof {
            assert(rn.skip(0) =~= rn);
            assert(seen_set(seen@) =~= Set::<int>::empty());
            assert(ord_int(ordi@) =~= Seq::<int>::empty());
        }
        let mut i: usize = 0;
        while i < deps.len()
            invariant
                i <= deps@.len(),
                seen@.len() == n,
                visit_list(es, n_int, seen_set(seen@), ord_int(ordi@), rn.skip(i as int))
                    == target,
            decreases deps@.len() - i,
        {
            let some_node = match self.node_bucket.get(&deps[i]) {
                Some(v) => *v,
                None => {
                    proof {
                        assert(self.prov().contains_key(roots[i as int]));
                        assert(false);
                    }
                    0
                },
            };
            proof {
                assert(roots[i as int] == deps@[i as int]@);
                assert(rn.skip(i as int)[0] == rn[i as int]);
                assert(rn[i as int] == self.bucket()[roots[i as int]] as int);
                assert(some_node as int == rn[i as int]);
            }
            let ghost seen_before = seen_set(seen@);
            let ghost ord_before = ord_int(ordi@);
            visit_node(&self.graph, &mut seen, some_node, &mut ordi);
            proof {
                let r1 = visit(es, n_int, seen_before, ord_before, some_node as int);
                lemma_visit_mono(es, n_int, seen_before, ord_before, some_node as int);
                assert(seen_before.union(r1.0) =~= r1.0);
                assert(rn.skip(i as int).drop_first() =~= rn.skip(i + 1));
            }
            i = i + 1;
        }
        proof {
            assert(rn.skip(deps@.len() as int) =~= Seq::<int>::empty());
            assert(ord_int(ordi@) == target.1);
            lemma_resolve_order(es, n_int, rn);
            assert forall|w: int| 0 <= w < ordi@.len() implies (#[trigger] ordi@[w]) < n by {
                assert(target.1[w] == ord_int(ordi@)[w]);
                assert(0 <= target.1[w] < n_int);
            }
        }
        let mut r: Vec<String> = Vec::new();
        let mut w: usize = 0;
        while w < ordi.len()
            invariant
                w <= ordi@.len(),
                r@.len() == w,
                forall|m: int| 0 <= m < ordi@.len() ==> (#[trigger] ordi@[m]) < n,
                forall|m: int|
                    0 <= m < w ==> (#[trigger] r@[m])@ == self.names()[ord_int(ordi@)[m]],
            decreases ordi@.len() - w,
        {
            r.push(self.graph.name_at(ordi[w]).clone());
            w = w + 1;
        }
        proof {
            assert(r.deep_view() =~= self.seq_names(ord_int(ordi@)));
            assert(ord_int(ordi@) == resolve_order(es, n_int, rn));
        }
        r
    }
}

/// `m`, with every key of `keys` bound to `v` (later entries win, like
/// repeated map insertion).
pub open spec fn insert_each<V>(m: Map<Seq<char>, V>, keys: Seq<Seq<char>>, v: V) -> Map<
    Seq<char>,
    V,
>
    decreases keys.len(),
{
    if keys.len() == 0 {
        m
    } else {
        insert_each(m, keys.drop_last(), v).insert(keys.last(), v)
    }
}

pub proof fn lemma_insert_each_get<V>(m: Map<Seq<char>, V>, keys: Seq<Seq<char>>, v: V, k: Seq<char>)
    ensures
        insert_each(m, keys, v).contains_key(k) <==> (m.contains_key(k) || keys.contains(k)),
        keys.contains(k) ==> insert_each(m, keys, v)[k] == v,
        (!keys.contains(k) && m.contains_key(k)) ==> insert_each(m, keys, v)[k] == m[k],
    decreases keys.len(),
{
    if keys.len() > 0 {
        lemma_insert_each_get(m, keys.drop_last(), v, k);
        if keys.contains(k) {
            if k != keys.last() {
                let i = choose|i: int| 0 <= i < keys.len() && keys[i] == k;
                assert(keys.drop_last()[i] == k);
                assert(keys.drop_last().contains(k));
            }
        } else {
            assert(forall|i: int|
                0 <= i < keys.drop_last().len() ==> keys.drop_last()[i] == keys[i]);
            assert(!keys.drop_last().contains(k));
        }
    }
}

/// Every requirement and suggestion key declared by an identity in the
/// closure of `roots` resolves to a registered node.
pub open spec fn closure_resolvable(g: Reg, roots: Seq<Seq<char>>) -> bool {
    &&& forall|nm: Seq<char>, i: int|
        reg_in_closure(g, roots, nm) && g.reqs.contains_key(nm) && 0 <= i < g.reqs[nm].len()
            ==> g.bucket.contains_key(#[trigger] g.reqs[nm][i])
    &&& forall|nm: Seq<char>, i: int|
        reg_in_closure(g, roots, nm) && g.suggs.contains_key(nm) && 0 <= i < g.suggs[nm].len()
            ==> g.bucket.contains_key(#[trigger] g.suggs[nm][i])
}

/// `rank` witnesses that the committed edges of `es` together with every
/// declared edge of the closure of `roots` form an acyclic relation: it
/// strictly increases along each of them.
pub open spec fn ranked(g: Reg, es: Seq<Edge>, roots: Seq<Seq<char>>, rank: spec_fn(int) -> int) -> bool {
    &&& forall|i: int|
        0 <= i < es.len() ==> rank((#[trigger] es[i]).src as int) < rank(es[i].dst as int)
    &&& forall|nm: Seq<char>, e: Edge|
        reg_in_closure(g, roots, nm) && #[trigger] reg_req_edge_decl(g, nm, e) ==> rank(
            e.src as int,
        ) < rank(e.dst as int)
}

/// No rank can witness acyclicity of the committed edges together with the
/// closure's declared edges, or some declared key does not resolve: the
/// inputs on which resolution is allowed to fail.
pub open spec fn expansion_blocked(g: Reg, es: Seq<Edge>, roots: Seq<Seq<char>>) -> bool {
    forall|rank: spec_fn(int) -> int|
        !(reg_roots_resolvable(g, roots) && closure_resolvable(g, roots) && #[trigger] ranked(
            g,
            es,
            roots,
            rank,
        ))
}

/// All identities the closure of `roots` declares have their edges
/// committed among `es`.
pub open spec fn closure_saturated(g: Reg, es: Seq<Edge>, roots: Seq<Seq<char>>) -> bool {
    forall|nm: Seq<char>| #[trigger] reg_in_closure(g, roots, nm) ==> reg_saturated(g, es, nm)
}

/// The state the expansion loop maintains about the resolver itself.
spec fn expand_base(pre: Dependy, cur: Dependy, roots: Seq<Seq<char>>) -> bool {
    &&& cur.wf()
    &&& cur.same_registrations(pre)
    &&& pre.edge_list().is_prefix_of(cur.edge_list())
    &&& forall|j: int|
        pre.edge_list().len() <= j < cur.edge_list().len() ==> exists|nm: Seq<char>|
            #[trigger] reg_in_closure(pre.reg(), roots, nm) && reg_req_edge_decl(
                pre.reg(),
                nm,
                #[trigger] cur.edge_list()[j],
            )
}

/// The state the expansion loop maintains about the seen list.
spec fn expand_seen(g: Reg, roots: Seq<Seq<char>>, seenq: Seq<Seq<char>>, names: Seq<Seq<char>>) -> bool {
    &&& seenq.no_duplicates()
    &&& seenq.len() <= names.len()
    &&& forall|x: Seq<char>| #[trigger] seenq.contains(x) ==> {
        &&& reg_in_closure(g, roots, x)
        &&& g.reqs.contains_key(x)
        &&& g.suggs.contains_key(x)
        &&& g.bucket.contains_key(x)
        &&& names.contains(x)
    }
}

impl Dependy {
    /// Pop keys off the work queue until it drains: resolve each to its
    /// canonical identity, and commit one edge per declared requirement and
    /// suggestion of every identity expanded for the first time.
    #[verifier::loop_isolation(false)]
    fn expand(&mut self, deps: &Vec<String>) -> (r: Result<(), DepError>)
        requires
            old(self).wf(),
        ensures
            expand_base(*old(self), *final(self), deps.deep_view()),
            match r {
                Ok(_) => final(self).roots_resolvable(deps.deep_view()) && closure_saturated(
                    old(self).reg(),
                    final(self).edge_list(),
                    deps.deep_view(),
                ),
                Err(e) => expand_err(
                    old(self).reg(),
                    final(self).edge_list(),
                    deps.deep_view(),
                    e,
                ),
            },
            (reg_roots_resolvable(old(self).reg(), deps.deep_view()) && closure_saturated(
                old(self).reg(),
                old(self).edge_list(),
                deps.deep_view(),
            )) ==> (r.is_ok() && final(self).edge_list() == old(self).edge_list()),
            r.is_err() ==> expansion_blocked(
                old(self).reg(),
                old(self).edge_list(),
                deps.deep_view(),
            ),
    {
        let ghost pre = *old(self);
        let ghost g = pre.reg();
        let ghost roots = deps.deep_view();
        let ghost hyp = reg_roots_resolvable(g, roots) && closure_saturated(
            g,
            pre.edge_list(),
            roots,
        );
        let mut to_resolve: Vec<String> = clone_string_vec(deps);
        let mut seen: Vec<String> = Vec::new();
        let ghost mut ridx: int = 0;
        proof {
            assert forall|qi: int|
                0 <= qi < to_resolve.deep_view().len() implies queued_ok(
                g,
                roots,
                seen.deep_view(),
                #[trigger] to_resolve.deep_view()[qi],
            ) by {
                assert(roots[qi] == to_resolve.deep_view()[qi]);
                assert(roots.contains(roots[qi]));
            }
        }
        while to_resolve.len() > 0
            invariant
                expand_base(pre, *self, roots),
                expand_seen(g, roots, seen.deep_view(), pre.names()),
                forall|x: Seq<char>| #[trigger] seen.deep_view().contains(x) ==> reg_saturated(
                    g,
                    self.edge_list(),
                    x,
                ),
                forall|qi: int|
                    0 <= qi < to_resolve.deep_view().len() ==> queued_ok(
                        g,
                        roots,
                        seen.deep_view(),
                        #[trigger] to_resolve.deep_view()[qi],
                    ),
                forall|i: int|
                    0 <= i < roots.len() ==> to_resolve.deep_view().contains(#[trigger] roots[i])
                        || (g.prov.contains_key(roots[i]) && seen.deep_view().contains(
                        g.prov[roots[i]],
                    )),
                expansion_pending(g, seen.deep_view(), to_resolve.deep_view()),
                hyp ==> self.edge_list() == pre.edge_list(),
                0 <= ridx <= roots.len(),
                forall|w: int| 0 <= w < ridx ==> g.prov.contains_key(#[trigger] roots[w]),
                to_resolve.deep_view().len() >= roots.len() - ridx,
                forall|m: int|
                    0 <= m < roots.len() - ridx ==> to_resolve.deep_view()[m] == roots[ridx + m],
            decreases
                    pre.names().len() - seen.deep_view().len(),
                    to_resolve.deep_view().len(),
        {
            broadcast use vstd::seq_lib::lemma_seq_contains_after_push;

            let ghost q0 = to_resolve.deep_view();
            let ghost seen0 = seen.deep_view();
            let ghost rstart = ridx;
            let dep_key = to_resolve.remove(0);
            proof {
                assert(to_resolve.deep_view() =~= q0.drop_first());
                if ridx < roots.len() {
                    assert(q0[0] == roots[ridx]);
                }
                assert(queued_ok(g, roots, seen0, q0[0]));
                assert(dep_key@ == q0[0]);
                assert forall|qi: int|
                    0 <= qi < to_resolve.deep_view().len() implies queued_ok(
                    g,
                    roots,
                    seen0,
                    #[trigger] to_resolve.deep_view()[qi],
                ) by {
                    assert(to_resolve.deep_view()[qi] == q0[qi + 1]);
                }
            }
            let canonical = match self.provides_map.get(&dep_key) {
                Some(s) => s.clone(),
                None => {
                    proof {
                        if hyp {
                            if roots.contains(dep_key@) {
                                let i = choose|i: int|
                                    0 <= i < roots.len() && roots[i] == dep_key@;
                                assert(g.prov.contains_key(roots[i]));
                            } else {
                                let nm = choose|nm: Seq<char>|
                                    {
                                        &&& #[trigger] seen0.contains(nm)
                                        &&& g.reqs.contains_key(nm)
                                        &&& g.suggs.contains_key(nm)
                                        &&& (g.reqs[nm].contains(dep_key@)
                                            || g.suggs[nm].contains(dep_key@))
                                    };
                                assert(reg_in_closure(g, roots, nm));
                                assert(reg_saturated(g, pre.edge_list(), nm));
                                if g.reqs[nm].contains(dep_key@) {
                                    let i = choose|i: int|
                                        0 <= i < g.reqs[nm].len() && g.reqs[nm][i] == dep_key@;
                                    assert(g.bucket.contains_key(g.reqs[nm][i]));
                                } else {
                                    let i = choose|i: int|
                                        0 <= i < g.suggs[nm].len() && g.suggs[nm][i] == dep_key@;
                                    assert(g.bucket.contains_key(g.suggs[nm][i]));
                                }
                                assert(g.bucket.dom() =~= g.prov.dom());
                            }
                            assert(false);
                        }
                        assert forall|i: int|
                            0 <= i < roots.len() && !g.prov.contains_key(#[trigger] roots[i]) && (
                            forall|w: int| 0 <= w < i ==> g.prov.contains_key(#[trigger] roots[w]))
                            implies dep_key@ == roots[i] by {
                            assert(rstart < roots.len()) by {
                                if rstart == roots.len() {
                                    assert(g.prov.contains_key(roots[i]));
                                }
                            }
                            assert(dep_key@ == roots[rstart]);
                            if i < rstart {
                                assert(g.prov.contains_key(roots[i]));
                            } else if i > rstart {
                                assert(g.prov.contains_key(roots[rstart]));
                            }
                        }
                        assert forall|rank: spec_fn(int) -> int|
                            !(reg_roots_resolvable(g, roots) && closure_resolvable(g, roots)
                                && #[trigger] ranked(g, pre.edge_list(), roots, rank)) by {
                            if reg_roots_resolvable(g, roots) && closure_resolvable(g, roots) {
                                if roots.contains(dep_key@) {
                                    let i = choose|i: int|
                                        0 <= i < roots.len() && roots[i] == dep_key@;
                                    assert(g.prov.contains_key(roots[i]));
                                } else {
                                    let nm = choose|nm: Seq<char>|
                                        {
                                            &&& #[trigger] seen0.contains(nm)
                                            &&& g.reqs.contains_key(nm)
                                            &&& g.suggs.contains_key(nm)
                                            &&& (g.reqs[nm].contains(dep_key@)
                                                || g.suggs[nm].contains(dep_key@))
                                        };
                                    assert(reg_in_closure(g, roots, nm));
                                    if g.reqs[nm].contains(dep_key@) {
                                        let i = choose|i: int|
                                            0 <= i < g.reqs[nm].len() && g.reqs[nm][i]
                                                == dep_key@;
                                        assert(g.bucket.contains_key(g.reqs[nm][i]));
                                    } else {
                                        let i = choose|i: int|
                                            0 <= i < g.suggs[nm].len() && g.suggs[nm][i]
                                                == dep_key@;
                                        assert(g.bucket.contains_key(g.suggs[nm][i]));
                                    }
                                    assert(g.bucket.dom() =~= g.prov.dom());
                                }
                                assert(false);
                            }
                        }
                    }
                    return Err(DepError::DependencyNotFound(dep_key));
                },
            };
            proof {
                assert(canonical@ == g.prov[dep_key@]);
                assert(g.bucket.contains_key(dep_key@));
                assert(g.prov[dep_key@] == g.names[g.bucket[dep_key@] as int]);
                assert(g.names.contains(canonical@));
                assert(g.reqs.dom() =~= g.names.to_set());
                assert(g.reqs.contains_key(canonical@));
                assert(g.suggs.contains_key(canonical@));
                assert(g.bucket.contains_key(canonical@));
                // the popped key's canonical identity is in the closure
                if roots.contains(dep_key@) {
                    let i = choose|i: int| 0 <= i < roots.len() && roots[i] == dep_key@;
                    lemma_closure_root(g, roots, i);
                } else {
                    let nm = choose|nm: Seq<char>|
                        {
                            &&& #[trigger] seen0.contains(nm)
                            &&& g.reqs.contains_key(nm)
                            &&& g.suggs.contains_key(nm)
                            &&& (g.reqs[nm].contains(dep_key@) || g.suggs[nm].contains(dep_key@))
                        };
                    assert(reg_decl_step(g, nm, canonical@));
                    lemma_closure_step(g, roots, nm, canonical@);
                }
                assert(reg_in_closure(g, roots, canonical@));
            }
            let ghost q1 = to_resolve.deep_view();
            if vec_contains_str(&seen, &canonical) {
                proof {
                    // the removed key resolves into the seen set
                    assert forall|i: int|
                        0 <= i < roots.len() implies to_resolve.deep_view().contains(
                        #[trigger] roots[i],
                    ) || (g.prov.contains_key(roots[i]) && seen.deep_view().contains(
                        g.prov[roots[i]],
                    )) by {
                        if q0.contains(roots[i]) && !to_resolve.deep_view().contains(roots[i]) {
                            let w = choose|w: int| 0 <= w < q0.len() && q0[w] == roots[i];
                            if w > 0 {
                                assert(to_resolve.deep_view()[w - 1] == q0[w]);
                            } else {
                                assert(roots[i] == dep_key@);
                            }
                        }
                    }
                    assert forall|nm: Seq<char>, i: int|
                        seen.deep_view().contains(nm) && g.reqs.contains_key(nm) && 0 <= i
                            < g.reqs[nm].len() implies key_settled(
                        g,
                        seen.deep_view(),
                        to_resolve.deep_view(),
                        #[trigger] g.reqs[nm][i],
                    ) by {
                        let k = g.reqs[nm][i];
                        assert(key_settled(g, seen0, q0, k));
                        if q0.contains(k) && !to_resolve.deep_view().contains(k) {
                            let w = choose|w: int| 0 <= w < q0.len() && q0[w] == k;
                            if w > 0 {
                                assert(to_resolve.deep_view()[w - 1] == q0[w]);
                            } else {
                                assert(k == dep_key@);
                            }
                        }
                    }
                    assert forall|nm: Seq<char>, i: int|
                        seen.deep_view().contains(nm) && g.suggs.contains_key(nm) && 0 <= i
                            < g.suggs[nm].len() implies key_settled(
                        g,
                        seen.deep_view(),
                        to_resolve.deep_view(),
                        #[trigger] g.suggs[nm][i],
                    ) by {
                        let k = g.suggs[nm][i];
                        assert(key_settled(g, seen0, q0, k));
                        if q0.contains(k) && !to_resolve.deep_view().contains(k) {
                            let w = choose|w: int| 0 <= w < q0.len() && q0[w] == k;
                            if w > 0 {
                                assert(to_resolve.deep_view()[w - 1] == q0[w]);
                            } else {
                                assert(k == dep_key@);
                            }
                        }
                    }
                }
            } else {
                proof {
                    let seenf = seen.deep_view().push(canonical@);
                    assert forall|nm: Seq<char>, i: int|
                        seen.deep_view().contains(nm) && g.reqs.contains_key(nm) && 0 <= i
                            < g.reqs[nm].len() implies key_settled(
                        g,
                        seenf,
                        to_resolve.deep_view(),
                        #[trigger] g.reqs[nm][i],
                    ) by {
                        let k = g.reqs[nm][i];
                        assert(key_settled(g, seen0, q0, k));
                        if q0.contains(k) && !to_resolve.deep_view().contains(k) {
                            let w = choose|w: int| 0 <= w < q0.len() && q0[w] == k;
                            if w > 0 {
                                assert(to_resolve.deep_view()[w - 1] == q0[w]);
                            } else {
                                assert(k == dep_key@);
                                assert(seenf.contains(canonical@));
                            }
                        }
                    }
                    assert forall|nm: Seq<char>, i: int|
                        seen.deep_view().contains(nm) && g.suggs.contains_key(nm) && 0 <= i
                            < g.suggs[nm].len() implies key_settled(
                        g,
                        seenf,
                        to_resolve.deep_view(),
                        #[trigger] g.suggs[nm][i],
                    ) by {
                        let k = g.suggs[nm][i];
                        assert(key_settled(g, seen0, q0, k));
                        if q0.contains(k) && !to_resolve.deep_view().contains(k) {
                            let w = choose|w: int| 0 <= w < q0.len() && q0[w] == k;
                            if w > 0 {
                                assert(to_resolve.deep_view()[w - 1] == q0[w]);
                            } else {
                                assert(k == dep_key@);
                                assert(seenf.contains(canonical@));
                            }
                        }
                    }
                }
                let ghost qpop = to_resolve.deep_view();
                let ghost dep_key_v = dep_key@;
                let ghost canonical_v = canonical@;
                match self.process_identity(
                    Ghost(pre),
                    Ghost(roots),
                    &mut to_resolve,
                    &mut seen,
                    dep_key,
                    canonical,
                ) {
                    Ok(_) => {
                        proof {
                            assert forall|i: int|
                                0 <= i < roots.len() implies to_resolve.deep_view().contains(
                                #[trigger] roots[i],
                            ) || (g.prov.contains_key(roots[i]) && seen.deep_view().contains(
                                g.prov[roots[i]],
                            )) by {
                                if q0.contains(roots[i]) {
                                    let w = choose|w: int|
                                        0 <= w < q0.len() && q0[w] == roots[i];
                                    if w > 0 {
                                        assert(qpop[w - 1] == q0[w]);
                                        assert(to_resolve.deep_view()[w - 1] == qpop[w - 1]);
                                    } else {
                                        assert(roots[i] == dep_key_v);
                                        assert(seen.deep_view().contains(canonical_v));
                                    }
                                } else if seen0.contains(g.prov[roots[i]]) {
                                    assert(seen.deep_view().contains(g.prov[roots[i]]));
                                }
                            }
                        }
                    },
                    Err(e) => {
                        return Err(e);
                    },
                }
            }
            proof {
                if rstart < roots.len() {
                    ridx = rstart + 1;
                    assert(g.prov.contains_key(roots[rstart]));
                    assert(q1.is_prefix_of(to_resolve.deep_view()) || q1
                        == to_resolve.deep_view());
                    assert forall|m: int|
                        0 <= m < roots.len() - ridx implies to_resolve.deep_view()[m] == roots[ridx
                        + m] by {
                        assert(q1[m] == q0[m + 1]);
                        assert(to_resolve.deep_view()[m] == q1[m]);
                    }
                    assert(to_resolve.deep_view().len() >= roots.len() - ridx);
                }
            }
        }
        proof {
            assert forall|i: int| 0 <= i < roots.len() implies g.prov.contains_key(
                #[trigger] roots[i],
            ) && seen.deep_view().contains(g.prov[roots[i]]) by {
                assert(to_resolve.deep_view().len() == 0);
            }
            let sv = seen.deep_view();
            assert forall|nm: Seq<char>| reg_in_closure(g, roots, nm) implies reg_saturated(
                g,
                self.edge_list(),
                nm,
            ) by {
                assert forall|a: Seq<char>, c: Seq<char>|
                    sv.contains(a) && #[trigger] reg_decl_step(g, a, c) implies sv.contains(
                    c,
                ) by {
                    let k = choose|k: Seq<char>|
                        {
                            &&& (g.reqs[a].contains(k) || g.suggs[a].contains(k))
                            &&& #[trigger] g.prov.contains_key(k)
                            &&& g.prov[k] == c
                        };
                    if g.reqs[a].contains(k) {
                        let i = choose|i: int| 0 <= i < g.reqs[a].len() && g.reqs[a][i] == k;
                        assert(key_settled(g, sv, to_resolve.deep_view(), g.reqs[a][i]));
                    } else {
                        let i = choose|i: int| 0 <= i < g.suggs[a].len() && g.suggs[a][i] == k;
                        assert(key_settled(g, sv, to_resolve.deep_view(), g.suggs[a][i]));
                    }
                }
                let p = choose|p: Seq<Seq<char>>|
                    {
                        &&& #[trigger] reg_decl_path(g, p)
                        &&& p.len() >= 1
                        &&& reg_root_canon(g, roots, p.first())
                        &&& p.last() == nm
                    };
                let i = choose|i: int|
                    0 <= i < roots.len() && g.prov.contains_key(#[trigger] roots[i])
                        && g.prov[roots[i]] == p.first();
                assert(sv.contains(p.first()));
                lemma_decl_path_closed(g, sv, p);
            }
        }
        Ok(())
    }
}

/// The graph nodes the roots resolve to, in request order.
pub open spec fn reg_root_nodes(g: Reg, roots: Seq<Seq<char>>) -> Seq<int> {
    roots.map_values(|k: Seq<char>| g.bucket[k] as int)
}

/// Node indices, replaced by their canonical identities.
pub open spec fn reg_seq_names(g: Reg, idxs: Seq<int>) -> Seq<Seq<char>> {
    idxs.map_values(|i: int| g.names[i])
}

/// When the closure of the roots declares an edge whose target already
/// reaches its source through committed edges, no rank can witness
/// acyclicity: resolving those roots must fail.
pub proof fn lemma_committed_cycle_blocks(
    g: Reg,
    es: Seq<Edge>,
    roots: Seq<Seq<char>>,
    nm: Seq<char>,
    e: Edge,
)
    requires
        reg_in_closure(g, roots, nm),
        reg_req_edge_decl(g, nm, e),
        reach(es, e.dst as int, e.src as int),
    ensures
        expansion_blocked(g, es, roots),
{
    assert forall|rank: spec_fn(int) -> int|
        !(reg_roots_resolvable(g, roots) && closure_resolvable(g, roots) && #[trigger] ranked(
            g,
            es,
            roots,
            rank,
        )) by {
        if reg_roots_resolvable(g, roots) && closure_resolvable(g, roots) && ranked(
            g,
            es,
            roots,
            rank,
        ) {
            assert(rank(e.src as int) < rank(e.dst as int));
            let pth = choose|pth: Seq<int>|
                #[trigger] is_path(es, pth) && pth.first() == e.dst as int && pth.last()
                    == e.src as int;
            if pth.len() >= 2 {
                crate::graph::lemma_path_rank(es, rank, pth);
            }
            assert(false);
        }
    }
}

/// When the closure of the roots declares two edges that join the same pair
/// of nodes in opposite directions, no rank exists either: resolving those
/// roots must fail whatever the committed edges are.
pub proof fn lemma_declared_cycle_blocks(
    g: Reg,
    es: Seq<Edge>,
    roots: Seq<Seq<char>>,
    nm1: Seq<char>,
    e1: Edge,
    nm2: Seq<char>,
    e2: Edge,
)
    requires
        reg_in_closure(g, roots, nm1),
        reg_req_edge_decl(g, nm1, e1),
        reg_in_closure(g, roots, nm2),
        reg_req_edge_decl(g, nm2, e2),
        e1.src == e2.dst,
        e1.dst == e2.src,
    ensures
        expansion_blocked(g, es, roots),
{
    assert forall|rank: spec_fn(int) -> int|
        !(reg_roots_resolvable(g, roots) && closure_resolvable(g, roots) && #[trigger] ranked(
            g,
            es,
            roots,
            rank,
        )) by {
        if ranked(g, es, roots, rank) {
            assert(rank(e1.src as int) < rank(e1.dst as int));
            assert(rank(e2.src as int) < rank(e2.dst as int));
        }
    }
}

/// Everything a successful resolution guarantees, relating the state before
/// (`pre`) and after (`post`) to the requested roots and the returned order.
pub open spec fn resolve_ok_post(
    pre: Dependy,
    post: Dependy,
    roots: Seq<Seq<char>>,
    order: Seq<Seq<char>>,
) -> bool {
    &&& post.wf()
    &&& post.same_registrations(pre)
    &&& pre.edge_list().is_prefix_of(post.edge_list())
    &&& forall|j: int|
        pre.edge_list().len() <= j < post.edge_list().len() ==> reg_edge_from_decl(
            pre.reg(),
            roots,
            #[trigger] post.edge_list()[j],
        )
    &&& post.edge_list().no_duplicates()
    &&& follows_fresh_in(pre.edge_list().len() as int, post.edge_list())
    &&& reg_roots_resolvable(pre.reg(), roots)
    &&& closure_saturated(pre.reg(), post.edge_list(), roots)
    &&& reg_follows_settled(pre.reg(), post.edge_list(), roots)
    &&& order == reg_seq_names(
        post.reg(),
        resolve_order(
            post.edge_list(),
            post.reg().names.len() as int,
            reg_root_nodes(post.reg(), roots),
        ),
    )
    &&& ((reg_roots_resolvable(pre.reg(), roots) && closure_saturated(
        pre.reg(),
        pre.edge_list(),
        roots,
    ) && reg_follows_settled(pre.reg(), pre.edge_list(), roots)) ==> post.edge_list()
        == pre.edge_list())
}

/// What the resolver invariant publicly guarantees of the graph: committed
/// edges join existing nodes, never repeat, never close a cycle, and
/// canonical identities never repeat.
pub proof fn lemma_wf_graph(s: Dependy)
    requires
        s.wf(),
    ensures
        wf_edges(s.edge_list(), s.names().len() as int),
        acyclic(s.edge_list()),
        s.edge_list().no_duplicates(),
        s.names().no_duplicates(),
{
}

/// Identity `b` declares a requirement key that resolves to identity `a`.
pub open spec fn req_dep_step(g: Reg, a: Seq<char>, b: Seq<char>) -> bool {
    &&& g.reqs.contains_key(b)
    &&& exists|k: Seq<char>|
        {
            &&& #[trigger] g.reqs[b].contains(k)
            &&& g.prov.contains_key(k)
            &&& g.prov[k] == a
        }
}

/// Two resolutions of the same roots, with no registration in between,
/// yield the same order: the first call leaves every declared edge and every
/// follows pair settled, so the second call commits nothing and walks the
/// identical graph.
pub proof fn lemma_resolve_idempotent(
    s0: Dependy,
    s1: Dependy,
    s2: Dependy,
    roots: Seq<Seq<char>>,
    o1: Seq<Seq<char>>,
    o2: Seq<Seq<char>>,
)
    requires
        resolve_ok_post(s0, s1, roots, o1),
        resolve_ok_post(s1, s2, roots, o2),
    ensures
        o2 == o1,
{
    assert(s1.reg() == s0.reg());
    assert(s2.reg() == s1.reg());
    assert(reg_roots_resolvable(s1.reg(), roots));
    assert(closure_saturated(s1.reg(), s1.edge_list(), roots));
    assert(reg_follows_settled(s1.reg(), s1.edge_list(), roots));
    assert(s2.edge_list() == s1.edge_list());
}

/// After a successful resolution, the state left behind is saturated and
/// settled for the same roots, so re-resolving them cannot fail: the
/// success clauses of the resolution contract apply to the second call.
pub proof fn lemma_resolved_state_settled(
    s0: Dependy,
    s1: Dependy,
    roots: Seq<Seq<char>>,
    o1: Seq<Seq<char>>,
)
    requires
        resolve_ok_post(s0, s1, roots, o1),
    ensures
        reg_roots_resolvable(s1.reg(), roots),
        closure_saturated(s1.reg(), s1.edge_list(), roots),
        reg_follows_settled(s1.reg(), s1.edge_list(), roots),
    {
    assert(s1.reg() == s0.reg());
}

/// Mutually declared requirements cannot resolve: were the call to succeed,
/// both declared edges would be committed and the graph would hold a cycle,
/// against the resolver's acyclicity.  So no outcome of resolving such
/// roots satisfies the success contract: the call must yield an error.
pub proof fn lemma_mutual_requirements_fail(
    s0: Dependy,
    s1: Dependy,
    roots: Seq<Seq<char>>,
    o1: Seq<Seq<char>>,
    nm1: Seq<char>,
    i1: int,
    nm2: Seq<char>,
    i2: int,
)
    requires
        reg_in_closure(s0.reg(), roots, nm1),
        reg_in_closure(s0.reg(), roots, nm2),
        s0.reg().reqs.contains_key(nm1),
        s0.reg().reqs.contains_key(nm2),
        0 <= i1 < s0.reg().reqs[nm1].len(),
        0 <= i2 < s0.reg().reqs[nm2].len(),
        s0.reg().bucket.contains_key(nm1),
        s0.reg().bucket.contains_key(nm2),
        s0.reg().bucket.contains_key(s0.reg().reqs[nm1][i1]),
        s0.reg().bucket.contains_key(s0.reg().reqs[nm2][i2]),
        s0.reg().bucket[s0.reg().reqs[nm1][i1]] == s0.reg().bucket[nm2],
        s0.reg().bucket[s0.reg().reqs[nm2][i2]] == s0.reg().bucket[nm1],
    ensures
        !resolve_ok_post(s0, s1, roots, o1),
{
    if resolve_ok_post(s0, s1, roots, o1) {
        assert(s1.reg() == s0.reg());
        let g = s1.reg();
        let es = s1.edge_list();
        let a = g.bucket[nm1] as int;
        let b = g.bucket[nm2] as int;
        assert(reg_saturated(g, es, nm1));
        assert(reg_saturated(g, es, nm2));
        assert(edge_kind_ex(es, b, a, DepEdge::Requires));
        assert(edge_kind_ex(es, a, b, DepEdge::Requires));
        assert(edge_ex(es, b, a)) by {
            let w = choose|w: int|
                0 <= w < es.len() && es[w].src == b && es[w].dst == a && es[w].kind
                    == DepEdge::Requires;
        }
        assert(edge_ex(es, a, b)) by {
            let w = choose|w: int|
                0 <= w < es.len() && es[w].src == a && es[w].dst == b && es[w].kind
                    == DepEdge::Requires;
        }
        lemma_reach_refl(es, a);
        lemma_reach_snoc(es, a, a, b);
        lemma_reach_snoc(es, a, b, a);
        lemma_wf_graph(s1);
        assert(!reach_plus(es, a, a));
    }
}

/// Two resolvers whose registries and committed edges agree resolve the
/// same roots to the same order whenever the shared state is already
/// settled for those roots: neither call commits an edge, so both walk the
/// identical graph.  (On unsettled states the contract pins the set of
/// committed requirement and suggestion edges, but not the order in which
/// they are committed, so it does not force equal outputs there.)
pub proof fn lemma_settled_states_resolve_alike(
    a0: Dependy,
    a1: Dependy,
    b0: Dependy,
    b1: Dependy,
    roots: Seq<Seq<char>>,
    oa: Seq<Seq<char>>,
    ob: Seq<Seq<char>>,
)
    requires
        resolve_ok_post(a0, a1, roots, oa),
        resolve_ok_post(b0, b1, roots, ob),
        a0.reg() == b0.reg(),
        a0.edge_list() == b0.edge_list(),
        closure_saturated(a0.reg(), a0.edge_list(), roots),
        reg_follows_settled(a0.reg(), a0.edge_list(), roots),
    ensures
        oa == ob,
{
    assert(a1.edge_list() == a0.edge_list());
    assert(b1.edge_list() == b0.edge_list());
    assert(a1.reg() == b1.reg());
}

/// A resolved order never repeats an identity.
pub proof fn lemma_order_distinct(
    pre: Dependy,
    post: Dependy,
    roots: Seq<Seq<char>>,
    order: Seq<Seq<char>>,
)
    requires
        resolve_ok_post(pre, post, roots, order),
    ensures
        order.no_duplicates(),
{
    let g = post.reg();
    let es = post.edge_list();
    let n = g.names.len() as int;
    let rn = reg_root_nodes(g, roots);
    assert forall|i: int| 0 <= i < rn.len() implies 0 <= #[trigger] rn[i] < n by {
        assert(g.prov.contains_key(roots[i]));
        assert(g.bucket.contains_key(roots[i]));
    }
    lemma_resolve_order(es, n, rn);
    let oi = resolve_order(es, n, rn);
    assert forall|x: int, y: int|
        0 <= x < order.len() && 0 <= y < order.len() && x != y implies order[x] != order[y] by {
        assert(order[x] == g.names[oi[x]] && order[y] == g.names[oi[y]]);
        assert(oi[x] != oi[y]);
        assert(post.names().no_duplicates());
    }
}

/// For any resolved order: along a chain in which each identity declares a
/// requirement resolving to the one before it, every chain identity in the
/// closure of the requested roots stands in the order as soon as the chain's
/// last one does, and strictly before its dependents.  The chain identities
/// must be canonical and not shadowed by a later alias.
pub proof fn lemma_requirement_precedes(
    pre: Dependy,
    post: Dependy,
    roots: Seq<Seq<char>>,
    order: Seq<Seq<char>>,
    p: Seq<Seq<char>>,
)
    requires
        resolve_ok_post(pre, post, roots, order),
        p.len() >= 2,
        forall|i: int| 0 <= i < p.len() - 1 ==> req_dep_step(post.reg(), #[trigger] p[i], p[i + 1]),
        forall|i: int| 0 <= i < p.len() ==> reg_in_closure(post.reg(), roots, #[trigger] p[i]),
        forall|i: int| 0 <= i < p.len() ==> post.reg().prov.contains_key(#[trigger] p[i])
            && post.reg().prov[p[i]] == p[i],
        order.contains(p.last()),
    ensures
        order.contains(p.first()),
        exists|ia: int, ib: int|
            0 <= ia < ib < order.len() && order[ia] == p.first() && order[ib] == p.last(),
    decreases p.len(),
{
    let g = post.reg();
    let es = post.edge_list();
    let n = g.names.len() as int;
    let rn = reg_root_nodes(g, roots);
    assert forall|i: int| 0 <= i < rn.len() implies 0 <= #[trigger] rn[i] < n by {
        assert(g.prov.contains_key(roots[i]));
        assert(g.bucket.contains_key(roots[i]));
    }
    lemma_resolve_order(es, n, rn);
    lemma_order_distinct(pre, post, roots, order);
    let oi = resolve_order(es, n, rn);
    // one step: the last chain identity's requirement edge forces its
    // predecessor into the order, strictly earlier
    let a = p[p.len() - 2];
    let b = p.last();
    assert(req_dep_step(g, a, b));
    let k = choose|k: Seq<char>|
        {
            &&& #[trigger] g.reqs[b].contains(k)
            &&& g.prov.contains_key(k)
            &&& g.prov[k] == a
        };
    assert(reg_in_closure(g, roots, b));
    assert(reg_saturated(g, es, b));
    let ki = choose|ki: int| 0 <= ki < g.reqs[b].len() && g.reqs[b][ki] == k;
    assert(g.bucket.contains_key(g.reqs[b][ki]));
    assert(edge_kind_ex(es, g.bucket[k] as int, g.bucket[b] as int, DepEdge::Requires));
    let ei = choose|ei: int|
        0 <= ei < es.len() && es[ei].src == g.bucket[k] as int && es[ei].dst == g.bucket[b] as int
            && es[ei].kind == DepEdge::Requires;
    assert(edge_ex(es, g.bucket[k] as int, g.bucket[b] as int));
    // names of the two edge ends
    assert(g.names[g.bucket[k] as int] == g.prov[k]);
    assert(g.names[g.bucket[b] as int] == g.prov[b]);
    let w = choose|w: int| 0 <= w < order.len() && order[w] == b;
    assert(order[w] == g.names[oi[w]]);
    assert(0 <= oi[w] < n);
    assert(oi[w] == g.bucket[b] as int) by {
        assert(g.names[oi[w]] == b && g.names[g.bucket[b] as int] == b);
        if oi[w] != g.bucket[b] as int {
            assert(post.names().no_duplicates());
        }
    }
    assert(oi.take(w).contains(g.bucket[k] as int));
    let wp = choose|wp: int| 0 <= wp < w && oi.take(w)[wp] == g.bucket[k] as int;
    assert(oi[wp] == g.bucket[k] as int);
    assert(order[wp] == g.names[g.bucket[k] as int]);
    assert(order[wp] == a);
    assert(order.contains(a)) by {
        assert(order[wp] == a);
    }
    if p.len() == 2 {
        assert(0 <= wp < w < order.len() && order[wp] == p.first() && order[w] == p.last());
    } else {
        let q = p.drop_last();
        assert(q.len() >= 2 && q.last() == a && q.first() == p.first());
        assert forall|i: int| 0 <= i < q.len() - 1 implies req_dep_step(
            g,
            #[trigger] q[i],
            q[i + 1],
        ) by {
            assert(q[i] == p[i] && q[i + 1] == p[i + 1]);
            assert(req_dep_step(g, p[i], p[i + 1]));
        }
        assert(forall|i: int| 0 <= i < q.len() ==> q[i] == p[i]);
        lemma_requirement_precedes(pre, post, roots, order, q);
        let (ia, ib) = choose|ia: int, ib: int|
            0 <= ia < ib < order.len() && order[ia] == q.first() && order[ib] == q.last();
        // the order repeats no identity, so the two sightings of `a` agree
        assert(order[ib] == a && order[wp] == a);
        assert(ib == wp);
        assert(0 <= ia < w < order.len() && order[ia] == p.first() && order[w] == p.last());
    }
}

/// A unit with no requirements and no suggestions, resolved on its own in a
/// resolver with no committed edges, yields the one-element order holding
/// only itself.
pub proof fn lemma_lone_unit(
    pre: Dependy,
    post: Dependy,
    roots: Seq<Seq<char>>,
    order: Seq<Seq<char>>,
    u: Seq<char>,
)
    requires
        resolve_ok_post(pre, post, roots, order),
        pre.edge_list().len() == 0,
        roots.len() == 1,
        roots[0] == u,
        pre.prov().contains_key(u),
        pre.prov()[u] == u,
        pre.reqs().contains_key(u),
        pre.reqs()[u].len() == 0,
        pre.suggs().contains_key(u),
        pre.suggs()[u].len() == 0,
    ensures
        order =~= seq![u],
{
    let g = pre.reg();
    assert(post.reg() == g);
    // the closure of the lone root is the root itself
    assert forall|nm: Seq<char>| #[trigger] reg_in_closure(g, roots, nm) implies nm == u by {
        let p = choose|p: Seq<Seq<char>>|
            {
                &&& #[trigger] reg_decl_path(g, p)
                &&& p.len() >= 1
                &&& reg_root_canon(g, roots, p.first())
                &&& p.last() == nm
            };
        assert(p.first() == u);
        if p.len() >= 2 {
            assert(reg_decl_step(g, p[0], p[1]));
            let k = choose|k: Seq<char>|
                {
                    &&& (g.reqs[u].contains(k) || g.suggs[u].contains(k))
                    &&& #[trigger] g.prov.contains_key(k)
                    &&& g.prov[k] == p[1]
                };
            assert(false);
        }
    }
    // no edge can be committed for it, so the graph stays empty
    assert(post.edge_list().len() == 0) by {
        if post.edge_list().len() > 0 {
            let e = post.edge_list()[0];
            assert(reg_edge_from_decl(g, roots, e));
            if exists|nm: Seq<char>| #[trigger] reg_in_closure(g, roots, nm) && reg_req_edge_decl(
                g,
                nm,
                e,
            ) {
                let nm = choose|nm: Seq<char>|
                    #[trigger] reg_in_closure(g, roots, nm) && reg_req_edge_decl(g, nm, e);
                assert(nm == u);
                let k = choose|k: Seq<char>|
                    {
                        &&& (e.kind == DepEdge::Requires && g.reqs[u].contains(k) || e.kind
                            == DepEdge::Suggests && g.suggs[u].contains(k))
                        &&& #[trigger] g.bucket.contains_key(k)
                        &&& e.src == g.bucket[k]
                    };
                assert(false);
            } else {
                let i = choose|i: int|
                    {
                        &&& 1 <= i < roots.len()
                        &&& g.bucket.contains_key(roots[i - 1])
                        &&& #[trigger] g.bucket.contains_key(roots[i])
                        &&& e.src == g.bucket[roots[i - 1]]
                        &&& e.dst == g.bucket[roots[i]]
                    };
                assert(false);
            }
        }
    }
    let es = post.edge_list();
    let n = g.names.len() as int;
    let rn = reg_root_nodes(g, roots);
    let node = g.bucket[u] as int;
    assert(rn =~= seq![node]);
    assert(0 <= node < n);
    // walk the traversal by hand on the empty edge list
    let s0 = Set::<int>::empty();
    let o0 = Seq::<int>::empty();
    assert(es.filter(|e: Edge| e.dst == node).len() == 0) by {
        broadcast use vstd::seq::Seq::lemma_filter_len;

    }
    let ps = parents_of(es, node);
    assert(ps.len() == 0);
    assert(ps =~= Seq::<int>::empty());
    let s1 = s0.insert(node);
    assert(visit_list(es, n, s1, o0, ps) == (s1, o0));
    assert(visit(es, n, s0, o0, node) == (s1, o0.push(node)));
    let r1 = visit(es, n, s0, o0, rn[0]);
    assert(rn.drop_first() =~= Seq::<int>::empty());
    assert(visit_list(es, n, s0.union(r1.0), r1.1, rn.drop_first()) == (
        s0.union(r1.0),
        r1.1,
    ));
    assert(resolve_order(es, n, rn) == o0.push(node));
    assert(order =~= reg_seq_names(g, o0.push(node)));
    assert(order[0] == g.names[node]);
    assert(g.names[node] == g.prov[u]);
}

impl Dependy {
    /// Resolve the given root identities: expand their declared requirements
    /// and suggestions into typed edges, add advisory follows edges for the
    /// declared sequence, and return the ancestor-ordered execution order.
    pub fn resolve_named_dependencies(&mut self, dependencies: &Vec<String>) -> (r: Result<
        Vec<String>,
        DepError,
    >)
        requires
            old(self).wf(),
        ensures
            final(self).wf(),
            final(self).same_registrations(*old(self)),
            old(self).edge_list().is_prefix_of(final(self).edge_list()),
            match r {
                Ok(order) => resolve_ok_post(
                    *old(self),
                    *final(self),
                    dependencies.deep_view(),
                    order.deep_view(),
                ),
                Err(e) => expand_err(
                    old(self).reg(),
                    final(self).edge_list(),
                    dependencies.deep_view(),
                    e,
                ),
            },
            !expansion_blocked(
                old(self).reg(),
                old(self).edge_list(),
                dependencies.deep_view(),
            ) ==> r.is_ok(),
            (reg_roots_resolvable(old(self).reg(), dependencies.deep_view())
                && closure_saturated(
                old(self).reg(),
                old(self).edge_list(),
                dependencies.deep_view(),
            ) && reg_follows_settled(
                old(self).reg(),
                old(self).edge_list(),
                dependencies.deep_view(),
            )) ==> r.is_ok(),
    {
        let ghost pre = *old(self);
        let ghost g = pre.reg();
        let ghost roots = dependencies.deep_view();
        match self.expand(dependencies) {
            Ok(_) => {},
            Err(e) => {
                return Err(e);
            },
        }
        let ghost mid = *self;
        match self.add_follows(dependencies) {
            Ok(_) => {},
            Err(e) => {
                proof {
                    assert(false);
                }
                return Err(e);
            },
        }
        let ghost fin = *self;
        let order = self.build_order(dependencies);
        proof {
            assert(fin.reg() == pre.reg());
            // prefix is transitive
            assert(pre.edge_list().is_prefix_of(fin.edge_list())) by {
                assert forall|j: int| 0 <= j < pre.edge_list().len() implies pre.edge_list()[j]
                    == fin.edge_list()[j] by {
                    assert(pre.edge_list()[j] == mid.edge_list()[j]);
                }
            }
            // every new edge is a declared or follows instance
            assert forall|j: int|
                pre.edge_list().len() <= j < fin.edge_list().len() implies reg_edge_from_decl(
                g,
                roots,
                #[trigger] fin.edge_list()[j],
            ) by {
                if j < mid.edge_list().len() {
                    assert(fin.edge_list()[j] == mid.edge_list()[j]);
                } else {
                    assert(fin.edge_from_decl(roots, fin.edge_list()[j]));
                }
            }
            // a committed follows edge was the only edge on its pair
            assert(fin.edge_list().no_duplicates());
            assert forall|j: int|
                pre.edge_list().len() <= j < fin.edge_list().len() && (
                #[trigger] fin.edge_list()[j]).kind == DepEdge::Follows implies forall|w: int|
                0 <= w < j ==> !((#[trigger] fin.edge_list()[w]).src == fin.edge_list()[j].src
                    && fin.edge_list()[w].dst == fin.edge_list()[j].dst) by {
                if j < mid.edge_list().len() {
                    assert(fin.edge_list()[j] == mid.edge_list()[j]);
                    let e = mid.edge_list()[j];
                    let nm = choose|nm: Seq<char>|
                        #[trigger] reg_in_closure(g, roots, nm) && reg_req_edge_decl(g, nm, e);
                    let k = choose|k: Seq<char>|
                        {
                            &&& (e.kind == DepEdge::Requires && g.reqs[nm].contains(k) || e.kind
                                == DepEdge::Suggests && g.suggs[nm].contains(k))
                            &&& #[trigger] g.bucket.contains_key(k)
                            &&& e.src == g.bucket[k]
                        };
                    assert(false);
                } else {
                    assert(follows_fresh_in(mid.edge_list().len() as int, fin.edge_list()));
                }
            }
            assert(follows_fresh_in(pre.edge_list().len() as int, fin.edge_list()));
            // saturation survives the follows edges
            assert forall|nm: Seq<char>| #[trigger] reg_in_closure(g, roots, nm)
                implies reg_saturated(g, fin.edge_list(), nm) by {
                lemma_saturated_mono(g, mid.edge_list(), fin.edge_list(), nm);
            }
            // a fully settled state takes no new edge
            if reg_roots_resolvable(g, roots) && closure_saturated(g, pre.edge_list(), roots)
                && reg_follows_settled(g, pre.edge_list(), roots) {
                assert(mid.edge_list() == pre.edge_list());
                assert(mid.follows_settled(roots));
                assert(fin.edge_list() == pre.edge_list());
            }
            assert(fin.follows_settled(roots));
            assert(reg_follows_settled(g, fin.edge_list(), roots));
        }
        Ok(order)
    }

    /// Resolve full unit declarations: reduce them to their identities and
    /// resolve those.
    #[verifier::loop_isolation(false)]
    pub fn resolve_dependencies<T: Dependency>(&mut self, dependencies: Vec<T>) -> (r: Result<
        Vec<String>,
        DepError,
    >)
        requires
            old(self).wf(),
        ensures
            final(self).wf(),
            final(self).same_registrations(*old(self)),
            old(self).edge_list().is_prefix_of(final(self).edge_list()),
            match r {
                Ok(order) => resolve_ok_post(
                    *old(self),
                    *final(self),
                    dependencies@.map_values(|d: T| d.key()),
                    order.deep_view(),
                ),
                Err(e) => expand_err(
                    old(self).reg(),
                    final(self).edge_list(),
                    dependencies@.map_values(|d: T| d.key()),
                    e,
                ),
            },
            !expansion_blocked(
                old(self).reg(),
                old(self).edge_list(),
                dependencies@.map_values(|d: T| d.key()),
            ) ==> r.is_ok(),
            (reg_roots_resolvable(old(self).reg(), dependencies@.map_values(|d: T| d.key()))
                && closure_saturated(
                old(self).reg(),
                old(self).edge_list(),
                dependencies@.map_values(|d: T| d.key()),
            ) && reg_follows_settled(
                old(self).reg(),
                old(self).edge_list(),
                dependencies@.map_values(|d: T| d.key()),
            )) ==> r.is_ok(),
    {
        let mut to_resolve: Vec<String> = Vec::new();
        let mut i: usize = 0;
        while i < dependencies.len()
            invariant
                i <= dependencies@.len(),
                to_resolve@.len() == i,
                forall|m: int| 0 <= m < i ==> (#[trigger] to_resolve@[m])@ == dependencies@[m].key(),
            decreases dependencies@.len() - i,
        {
            to_resolve.push(dependencies[i].name().clone());
            i = i + 1;
        }
        proof {
            assert(to_resolve.deep_view() =~= dependencies@.map_values(|d: T| d.key()));
        }
        self.resolve_named_dependencies(&to_resolve)
    }

    /// Expand one identity seen for the first time: queue every declared
    /// requirement and suggestion key, and commit the matching edge for each
    /// unless an equal edge is already present.
    #[verifier::loop_isolation(false)]
    fn process_identity(
        &mut self,
        Ghost(pre): Ghost<Dependy>,
        Ghost(roots): Ghost<Seq<Seq<char>>>,
        to_resolve: &mut Vec<String>,
        seen: &mut Vec<String>,
        dep_key: String,
        canonical: String,
    ) -> (r: Result<(), DepError>)
        requires
            expand_base(pre, *old(self), roots),
            expand_seen(pre.reg(), roots, old(seen).deep_view(), pre.names()),
            forall|x: Seq<char>| #[trigger] old(seen).deep_view().contains(x) ==> reg_saturated(
                pre.reg(),
                old(self).edge_list(),
                x,
            ),
            forall|qi: int|
                0 <= qi < old(to_resolve).deep_view().len() ==> queued_ok(
                    pre.reg(),
                    roots,
                    old(seen).deep_view(),
                    #[trigger] old(to_resolve).deep_view()[qi],
                ),
            !old(seen).deep_view().contains(canonical@),
            pre.reg().prov.contains_key(dep_key@),
            canonical@ == pre.reg().prov[dep_key@],
            reg_in_closure(pre.reg(), roots, canonical@),
            pre.reg().reqs.contains_key(canonical@),
            pre.reg().suggs.contains_key(canonical@),
            pre.reg().bucket.contains_key(canonical@),
            pre.names().contains(canonical@),
            forall|nm: Seq<char>, i: int|
                old(seen).deep_view().contains(nm) && pre.reg().reqs.contains_key(nm) && 0 <= i
                    < pre.reg().reqs[nm].len() ==> key_settled(
                    pre.reg(),
                    old(seen).deep_view().push(canonical@),
                    old(to_resolve).deep_view(),
                    #[trigger] pre.reg().reqs[nm][i],
                ),
            forall|nm: Seq<char>, i: int|
                old(seen).deep_view().contains(nm) && pre.reg().suggs.contains_key(nm) && 0 <= i
                    < pre.reg().suggs[nm].len() ==> key_settled(
                    pre.reg(),
                    old(seen).deep_view().push(canonical@),
                    old(to_resolve).deep_view(),
                    #[trigger] pre.reg().suggs[nm][i],
                ),
            (reg_roots_resolvable(pre.reg(), roots) && closure_saturated(
                pre.reg(),
                pre.edge_list(),
                roots,
            )) ==> old(self).edge_list() == pre.edge_list(),
        ensures
            expand_base(pre, *final(self), roots),
            match r {
                Ok(_) => {
                    &&& final(seen)@.len() == old(seen)@.len() + 1
                    &&& final(seen).deep_view() == old(seen).deep_view().push(canonical@)
                    &&& expand_seen(pre.reg(), roots, final(seen).deep_view(), pre.names())
                    &&& forall|x: Seq<char>| #[trigger] final(seen).deep_view().contains(x)
                        ==> reg_saturated(pre.reg(), final(self).edge_list(), x)
                    &&& forall|qi: int|
                        0 <= qi < final(to_resolve).deep_view().len() ==> queued_ok(
                            pre.reg(),
                            roots,
                            final(seen).deep_view(),
                            #[trigger] final(to_resolve).deep_view()[qi],
                        )
                    &&& old(to_resolve).deep_view().is_prefix_of(final(to_resolve).deep_view())
                    &&& expansion_pending(
                        pre.reg(),
                        final(seen).deep_view(),
                        final(to_resolve).deep_view(),
                    )
                },
                Err(e) => {
                    &&& expand_err(pre.reg(), final(self).edge_list(), roots, e)
                    &&& !(reg_roots_resolvable(pre.reg(), roots) && closure_saturated(
                        pre.reg(),
                        pre.edge_list(),
                        roots,
                    ))
                    &&& expansion_blocked(pre.reg(), pre.edge_list(), roots)
                },
            },
            (reg_roots_resolvable(pre.reg(), roots) && closure_saturated(
                pre.reg(),
                pre.edge_list(),
                roots,
            )) ==> final(self).edge_list() == pre.edge_list(),
    {
        broadcast use vstd::seq_lib::lemma_seq_contains_after_push;

        let ghost g = pre.reg();
        let ghost hyp = reg_roots_resolvable(g, roots) && closure_saturated(
            g,
            pre.edge_list(),
            roots,
        );
        let ghost seenp = seen.deep_view();
        let ghost seenf = seenp.push(canonical@);
        let ghost queue0 = to_resolve.deep_view();
        seen.push(canonical.clone());
        proof {
            assert(seen.deep_view() =~= seenf);
            lemma_distinct_len(seenf, pre.names());
            assert(expand_seen(g, roots, seenf, pre.names()));
            assert forall|qi: int|
                0 <= qi < to_resolve.deep_view().len() implies queued_ok(
                g,
                roots,
                seenf,
                #[trigger] to_resolve.deep_view()[qi],
            ) by {
                let q = to_resolve.deep_view()[qi];
                assert(queued_ok(g, roots, seenp, q));
                if !roots.contains(q) {
                    let nm = choose|nm: Seq<char>|
                        {
                            &&& #[trigger] seenp.contains(nm)
                            &&& g.reqs.contains_key(nm)
                            &&& g.suggs.contains_key(nm)
                            &&& (g.reqs[nm].contains(q) || g.suggs[nm].contains(q))
                        };
                    assert(seenf.contains(nm));
                }
            }
        }
        let req_list = match self.requirements.get(&canonical) {
            Some(v) => clone_string_vec(v),
            None => {
                proof {
                    assert(false);
                }
                return Err(DepError::RequirementsNotFound(canonical));
            },
        };
        let sugg_list = match self.suggestions.get(&canonical) {
            Some(v) => clone_string_vec(v),
            None => {
                proof {
                    assert(false);
                }
                return Err(DepError::SuggestionsNotFound(canonical));
            },
        };
        let dep_node = match self.node_bucket.get(&canonical) {
            Some(v) => *v,
            None => {
                proof {
                    assert(false);
                }
                return Err(DepError::DependencyNotFound(canonical));
            },
        };
        proof {
            assert(req_list.deep_view() == g.reqs[canonical@]);
            assert(sugg_list.deep_view() == g.suggs[canonical@]);
            assert(dep_node == g.bucket[canonical@]);
            assert((dep_node as int) < self.names().len());
        }
        let mut w: usize = 0;
        while w < req_list.len()
            invariant
                w <= req_list@.len(),
                expand_base(pre, *self, roots),
                seen.deep_view() == seenf,
                req_list.deep_view() == g.reqs[canonical@],
                sugg_list.deep_view() == g.suggs[canonical@],
                dep_node == g.bucket[canonical@],
                forall|x: Seq<char>| #[trigger] seenp.contains(x) ==> reg_saturated(
                    g,
                    self.edge_list(),
                    x,
                ),
                forall|i: int|
                    0 <= i < w ==> {
                        let k = #[trigger] g.reqs[canonical@][i];
                        &&& g.bucket.contains_key(k)
                        &&& edge_kind_ex(
                            self.edge_list(),
                            g.bucket[k] as int,
                            g.bucket[canonical@] as int,
                            DepEdge::Requires,
                        )
                    },
                queue0.is_prefix_of(to_resolve.deep_view()),
                forall|qi: int|
                    0 <= qi < to_resolve.deep_view().len() ==> queued_ok(
                        g,
                        roots,
                        seenf,
                        #[trigger] to_resolve.deep_view()[qi],
                    ),
                forall|i: int|
                    0 <= i < w ==> to_resolve.deep_view().contains(#[trigger] g.reqs[canonical@][i]),
                hyp ==> self.edge_list() == pre.edge_list(),
            decreases req_list@.len() - w,
        {
            let req = req_list[w].clone();
            proof {
                assert(req@ == g.reqs[canonical@][w as int]);
                assert(g.reqs[canonical@].contains(req@));
            }
            let ghost qmid = to_resolve.deep_view();
            to_resolve.push(req.clone());
            proof {
                assert(to_resolve.deep_view() =~= qmid.push(req@));
                assert(queued_ok(g, roots, seenf, req@)) by {
                    assert(seenf.contains(canonical@));
                }
            }
            let target = match self.node_bucket.get(&req) {
                Some(e) => *e,
                None => {
                    proof {
                        if hyp {
                            assert(reg_saturated(g, pre.edge_list(), canonical@));
                            assert(g.bucket.contains_key(g.reqs[canonical@][w as int]));
                            assert(false);
                        }
                        assert forall|rank: spec_fn(int) -> int|
                            !(reg_roots_resolvable(g, roots) && closure_resolvable(g, roots)
                                && #[trigger] ranked(g, pre.edge_list(), roots, rank)) by {
                            if closure_resolvable(g, roots) {
                                assert(g.bucket.contains_key(g.reqs[canonical@][w as int]));
                            }
                        }
                    }
                    return Err(DepError::RequirementNotFound(canonical, req));
                },
            };
            proof {
                assert(target == g.bucket[req@]);
                assert((target as int) < self.names().len());
            }
            if !self.graph.has_edge_kind(target, dep_node, DepEdge::Requires) {
                proof {
                    if hyp {
                        assert(reg_saturated(g, pre.edge_list(), canonical@));
                        assert(edge_kind_ex(
                            pre.edge_list(),
                            g.bucket[g.reqs[canonical@][w as int]] as int,
                            g.bucket[canonical@] as int,
                            DepEdge::Requires,
                        ));
                        assert(false);
                    }
                }
                let ghost mid = *self;
                match self.graph.try_add_edge(target, dep_node, DepEdge::Requires) {
                    Ok(_) => {
                        proof {
                            let e = Edge { src: target, dst: dep_node, kind: DepEdge::Requires };
                            assert(self.edge_list() == mid.edge_list().push(e));
                            assert(self.edge_list().no_duplicates()) by {
                                assert forall|i: int|
                                    0 <= i < mid.edge_list().len() implies mid.edge_list()[i]
                                    != e by {
                                    if mid.edge_list()[i] == e {
                                        assert(edge_kind_ex(
                                            mid.edge_list(),
                                            target as int,
                                            dep_node as int,
                                            DepEdge::Requires,
                                        ));
                                    }
                                }
                                assert forall|i: int, j: int|
                                    0 <= i < self.edge_list().len() && 0 <= j
                                        < self.edge_list().len() && i != j implies self.edge_list()[i]
                                    != self.edge_list()[j] by {
                                    if i < mid.edge_list().len() && j < mid.edge_list().len() {
                                        assert(mid.edge_list().no_duplicates());
                                        assert(self.edge_list()[i] == mid.edge_list()[i]);
                                        assert(self.edge_list()[j] == mid.edge_list()[j]);
                                    } else if j == mid.edge_list().len() {
                                        assert(self.edge_list()[j] == e);
                                        assert(self.edge_list()[i] == mid.edge_list()[i]);
                                    } else {
                                        assert(self.edge_list()[i] == e);
                                        assert(self.edge_list()[j] == mid.edge_list()[j]);
                                    }
                                }
                            }
                            assert(reg_req_edge_decl(g, canonical@, e));
                            assert(reg_edge_from_decl(g, roots, e));
                            assert(pre.edge_list().is_prefix_of(self.edge_list()));
                            assert forall|j: int|
                                pre.edge_list().len() <= j < self.edge_list().len()
                                    implies reg_edge_from_decl(
                                g,
                                roots,
                                #[trigger] self.edge_list()[j],
                            ) by {
                                if j < mid.edge_list().len() {
                                    assert(self.edge_list()[j] == mid.edge_list()[j]);
                                } else {
                                    assert(self.edge_list()[j] == e);
                                }
                            }
                            assert forall|x: Seq<char>| #[trigger] seenp.contains(x)
                                implies reg_saturated(g, self.edge_list(), x) by {
                                lemma_saturated_mono(g, mid.edge_list(), self.edge_list(), x);
                            }
                            assert forall|i: int| 0 <= i < w + 1 implies {
                                let k = #[trigger] g.reqs[canonical@][i];
                                &&& g.bucket.contains_key(k)
                                &&& edge_kind_ex(
                                    self.edge_list(),
                                    g.bucket[k] as int,
                                    g.bucket[canonical@] as int,
                                    DepEdge::Requires,
                                )
                            } by {
                                let k = g.reqs[canonical@][i];
                                if i < w {
                                    crate::graph::lemma_edge_kind_ex_mono(
                                        mid.edge_list(),
                                        self.edge_list(),
                                        g.bucket[k] as int,
                                        g.bucket[canonical@] as int,
                                        DepEdge::Requires,
                                    );
                                } else {
                                    assert(self.edge_list()[mid.edge_list().len() as int] == e);
                                }
                            }
                        }
                    },
                    Err(_) => {
                        proof {
                            assert(reach(
                                self.edge_list(),
                                g.bucket[canonical@] as int,
                                g.bucket[req@] as int,
                            ));
                            assert forall|rank: spec_fn(int) -> int|
                                !(reg_roots_resolvable(g, roots) && closure_resolvable(g, roots)
                                    && #[trigger] ranked(g, pre.edge_list(), roots, rank)) by {
                                if reg_roots_resolvable(g, roots) && closure_resolvable(g, roots)
                                    && ranked(g, pre.edge_list(), roots, rank) {
                                    let cand = Edge {
                                        src: target,
                                        dst: dep_node,
                                        kind: DepEdge::Requires,
                                    };
                                    assert(reg_req_edge_decl(g, canonical@, cand));
                                    assert(rank(target as int) < rank(dep_node as int));
                                    assert forall|i: int|
                                        0 <= i < self.edge_list().len() implies rank(
                                        (#[trigger] self.edge_list()[i]).src as int,
                                    ) < rank(self.edge_list()[i].dst as int) by {
                                        if i < pre.edge_list().len() {
                                            assert(self.edge_list()[i] == pre.edge_list()[i]);
                                        } else {
                                            let nm = choose|nm: Seq<char>|
                                                #[trigger] reg_in_closure(g, roots, nm)
                                                    && reg_req_edge_decl(
                                                    g,
                                                    nm,
                                                    self.edge_list()[i],
                                                );
                                        }
                                    }
                                    let pth = choose|pth: Seq<int>|
                                        #[trigger] is_path(self.edge_list(), pth) && pth.first()
                                            == g.bucket[canonical@] as int && pth.last()
                                            == g.bucket[req@] as int;
                                    if pth.len() >= 2 {
                                        crate::graph::lemma_path_rank(
                                            self.edge_list(),
                                            rank,
                                            pth,
                                        );
                                    }
                                    assert(false);
                                }
                            }
                        }
                        return Err(DepError::CircularDependency(canonical, req));
                    },
                }
            } else {
                proof {
                    assert(edge_kind_ex(
                        self.edge_list(),
                        g.bucket[g.reqs[canonical@][w as int]] as int,
                        g.bucket[canonical@] as int,
                        DepEdge::Requires,
                    ));
                }
            }
            w = w + 1;
        }
        let ghost queue_req = to_resolve.deep_view();
        let mut w2: usize = 0;
        while w2 < sugg_list.len()
            invariant
                w2 <= sugg_list@.len(),
                expand_base(pre, *self, roots),
                seen.deep_view() == seenf,
                sugg_list.deep_view() == g.suggs[canonical@],
                dep_node == g.bucket[canonical@],
                forall|x: Seq<char>| #[trigger] seenp.contains(x) ==> reg_saturated(
                    g,
                    self.edge_list(),
                    x,
                ),
                forall|i: int|
                    0 <= i < g.reqs[canonical@].len() ==> {
                        let k = #[trigger] g.reqs[canonical@][i];
                        &&& g.bucket.contains_key(k)
                        &&& edge_kind_ex(
                            self.edge_list(),
                            g.bucket[k] as int,
                            g.bucket[canonical@] as int,
                            DepEdge::Requires,
                        )
                    },
                forall|i: int|
                    0 <= i < w2 ==> {
                        let k = #[trigger] g.suggs[canonical@][i];
                        &&& g.bucket.contains_key(k)
                        &&& edge_kind_ex(
                            self.edge_list(),
                            g.bucket[k] as int,
                            g.bucket[canonical@] as int,
                            DepEdge::Suggests,
                        )
                    },
                queue0.is_prefix_of(to_resolve.deep_view()),
                queue_req.is_prefix_of(to_resolve.deep_view()),
                forall|qi: int|
                    0 <= qi < to_resolve.deep_view().len() ==> queued_ok(
                        g,
                        roots,
                        seenf,
                        #[trigger] to_resolve.deep_view()[qi],
                    ),
                forall|i: int|
                    0 <= i < g.reqs[canonical@].len() ==> to_resolve.deep_view().contains(
                        #[trigger] g.reqs[canonical@][i],
                    ),
                forall|i: int|
                    0 <= i < w2 ==> to_resolve.deep_view().contains(
                        #[trigger] g.suggs[canonical@][i],
                    ),
                hyp ==> self.edge_list() == pre.edge_list(),
            decreases sugg_list@.len() - w2,
        {
            let req = sugg_list[w2].clone();
            proof {
                assert(req@ == g.suggs[canonical@][w2 as int]);
                assert(g.suggs[canonical@].contains(req@));
            }
            let ghost qmid = to_resolve.deep_view();
            to_resolve.push(req.clone());
            proof {
                assert(to_resolve.deep_view() =~= qmid.push(req@));
                assert(queued_ok(g, roots, seenf, req@)) by {
                    assert(seenf.contains(canonical@));
                }
            }
            let target = match self.node_bucket.get(&req) {
                Some(e) => *e,
                None => {
                    proof {
                        if hyp {
                            assert(reg_saturated(g, pre.edge_list(), canonical@));
                            assert(g.bucket.contains_key(g.suggs[canonical@][w2 as int]));
                            assert(false);
                        }
                        assert forall|rank: spec_fn(int) -> int|
                            !(reg_roots_resolvable(g, roots) && closure_resolvable(g, roots)
                                && #[trigger] ranked(g, pre.edge_list(), roots, rank)) by {
                            if closure_resolvable(g, roots) {
                                assert(g.bucket.contains_key(g.suggs[canonical@][w2 as int]));
                            }
                        }
                    }
                    return Err(DepError::SuggestionNotFound(canonical, req));
                },
            };
            proof {
                assert(target == g.bucket[req@]);
                assert((target as int) < self.names().len());
            }
            if !self.graph.has_edge_kind(target, dep_node, DepEdge::Suggests) {
                proof {
                    if hyp {
                        assert(reg_saturated(g, pre.edge_list(), canonical@));
                        assert(edge_kind_ex(
                            pre.edge_list(),
                            g.bucket[g.suggs[canonical@][w2 as int]] as int,
                            g.bucket[canonical@] as int,
                            DepEdge::Suggests,
                        ));
                        assert(false);
                    }
                }
                let ghost mid = *self;
                match self.graph.try_add_edge(target, dep_node, DepEdge::Suggests) {
                    Ok(_) => {
                        proof {
                            let e = Edge { src: target, dst: dep_node, kind: DepEdge::Suggests };
                            assert(self.edge_list() == mid.edge_list().push(e));
                            assert(self.edge_list().no_duplicates()) by {
                                assert forall|i: int|
                                    0 <= i < mid.edge_list().len() implies mid.edge_list()[i]
                                    != e by {
                                    if mid.edge_list()[i] == e {
                                        assert(edge_kind_ex(
                                            mid.edge_list(),
                                            target as int,
                                            dep_node as int,
                                            DepEdge::Suggests,
                                        ));
                                    }
                                }
                                assert forall|i: int, j: int|
                                    0 <= i < self.edge_list().len() && 0 <= j
                                        < self.edge_list().len() && i != j implies self.edge_list()[i]
                                    != self.edge_list()[j] by {
                                    if i < mid.edge_list().len() && j < mid.edge_list().len() {
                                        assert(mid.edge_list().no_duplicates());
                                        assert(self.edge_list()[i] == mid.edge_list()[i]);
                                        assert(self.edge_list()[j] == mid.edge_list()[j]);
                                    } else if j == mid.edge_list().len() {
                                        assert(self.edge_list()[j] == e);
                                        assert(self.edge_list()[i] == mid.edge_list()[i]);
                                    } else {
                                        assert(self.edge_list()[i] == e);
                                        assert(self.edge_list()[j] == mid.edge_list()[j]);
                                    }
                                }
                            }
                            assert(reg_req_edge_decl(g, canonical@, e));
                            assert(reg_edge_from_decl(g, roots, e));
                            assert(pre.edge_list().is_prefix_of(self.edge_list()));
                            assert forall|j: int|
                                pre.edge_list().len() <= j < self.edge_list().len()
                                    implies reg_edge_from_decl(
                                g,
                                roots,
                                #[trigger] self.edge_list()[j],
                            ) by {
                                if j < mid.edge_list().len() {
                                    assert(self.edge_list()[j] == mid.edge_list()[j]);
                                } else {
                                    assert(self.edge_list()[j] == e);
                                }
                            }
                            assert forall|x: Seq<char>| #[trigger] seenp.contains(x)
                                implies reg_saturated(g, self.edge_list(), x) by {
                                lemma_saturated_mono(g, mid.edge_list(), self.edge_list(), x);
                            }
                            assert forall|i: int| 0 <= i < g.reqs[canonical@].len() implies {
                                let k = #[trigger] g.reqs[canonical@][i];
                                &&& g.bucket.contains_key(k)
                                &&& edge_kind_ex(
                                    self.edge_list(),
                                    g.bucket[k] as int,
                                    g.bucket[canonical@] as int,
                                    DepEdge::Requires,
                                )
                            } by {
                                let k = g.reqs[canonical@][i];
                                crate::graph::lemma_edge_kind_ex_mono(
                                    mid.edge_list(),
                                    self.edge_list(),
                                    g.bucket[k] as int,
                                    g.bucket[canonical@] as int,
                                    DepEdge::Requires,
                                );
                            }
                            assert forall|i: int| 0 <= i < w2 + 1 implies {
                                let k = #[trigger] g.suggs[canonical@][i];
                                &&& g.bucket.contains_key(k)
                                &&& edge_kind_ex(
                                    self.edge_list(),
                                    g.bucket[k] as int,
                                    g.bucket[canonical@] as int,
                                    DepEdge::Suggests,
                                )
                            } by {
                                let k = g.suggs[canonical@][i];
                                if i < w2 {
                                    crate::graph::lemma_edge_kind_ex_mono(
                                        mid.edge_list(),
                                        self.edge_list(),
                                        g.bucket[k] as int,
                                        g.bucket[canonical@] as int,
                                        DepEdge::Suggests,
                                    );
                                } else {
                                    assert(self.edge_list()[mid.edge_list().len() as int] == e);
                                }
                            }
                        }
                    },
                    Err(_) => {
                        proof {
                            assert(reach(
                                self.edge_list(),
                                g.bucket[canonical@] as int,
                                g.bucket[req@] as int,
                            ));
                            assert forall|rank: spec_fn(int) -> int|
                                !(reg_roots_resolvable(g, roots) && closure_resolvable(g, roots)
                                    && #[trigger] ranked(g, pre.edge_list(), roots, rank)) by {
                                if reg_roots_resolvable(g, roots) && closure_resolvable(g, roots)
                                    && ranked(g, pre.edge_list(), roots, rank) {
                                    let cand = Edge {
                                        src: target,
                                        dst: dep_node,
                                        kind: DepEdge::Suggests,
                                    };
                                    assert(reg_req_edge_decl(g, canonical@, cand));
                                    assert(rank(target as int) < rank(dep_node as int));
                                    assert forall|i: int|
                                        0 <= i < self.edge_list().len() implies rank(
                                        (#[trigger] self.edge_list()[i]).src as int,
                                    ) < rank(self.edge_list()[i].dst as int) by {
                                        if i < pre.edge_list().len() {
                                            assert(self.edge_list()[i] == pre.edge_list()[i]);
                                        } else {
                                            let nm = choose|nm: Seq<char>|
                                                #[trigger] reg_in_closure(g, roots, nm)
                                                    && reg_req_edge_decl(
                                                    g,
                                                    nm,
                                                    self.edge_list()[i],
                                                );
                                        }
                                    }
                                    let pth = choose|pth: Seq<int>|
                                        #[trigger] is_path(self.edge_list(), pth) && pth.first()
                                            == g.bucket[canonical@] as int && pth.last()
                                            == g.bucket[req@] as int;
                                    if pth.len() >= 2 {
                                        crate::graph::lemma_path_rank(
                                            self.edge_list(),
                                            rank,
                                            pth,
                                        );
                                    }
                                    assert(false);
                                }
                            }
                        }
                        return Err(DepError::CircularDependency(canonical, req));
                    },
                }
            } else {
                proof {
                    assert(edge_kind_ex(
                        self.edge_list(),
                        g.bucket[g.suggs[canonical@][w2 as int]] as int,
                        g.bucket[canonical@] as int,
                        DepEdge::Suggests,
                    ));
                }
            }
            w2 = w2 + 1;
        }
        proof {
            // the newly expanded identity is now saturated
            assert(reg_saturated(g, self.edge_list(), canonical@));
            assert forall|x: Seq<char>| #[trigger] seenf.contains(x) implies reg_saturated(
                g,
                self.edge_list(),
                x,
            ) by {
                if x != canonical@ {
                    assert(seenp.contains(x));
                }
            }
            // every declared key of every expanded identity is settled
            assert forall|nm: Seq<char>, i: int|
                seenf.contains(nm) && g.reqs.contains_key(nm) && 0 <= i
                    < g.reqs[nm].len() implies key_settled(
                g,
                seenf,
                to_resolve.deep_view(),
                #[trigger] g.reqs[nm][i],
            ) by {
                if nm == canonical@ {
                    assert(to_resolve.deep_view().contains(g.reqs[canonical@][i]));
                } else {
                    assert(seenp.contains(nm));
                    assert(key_settled(g, seenf, queue0, g.reqs[nm][i]));
                    if queue0.contains(g.reqs[nm][i]) {
                        let w3 = choose|w3: int|
                            0 <= w3 < queue0.len() && queue0[w3] == g.reqs[nm][i];
                        assert(to_resolve.deep_view()[w3] == queue0[w3]);
                    }
                }
            }
            assert forall|nm: Seq<char>, i: int|
                seenf.contains(nm) && g.suggs.contains_key(nm) && 0 <= i
                    < g.suggs[nm].len() implies key_settled(
                g,
                seenf,
                to_resolve.deep_view(),
                #[trigger] g.suggs[nm][i],
            ) by {
                if nm == canonical@ {
                    assert(to_resolve.deep_view().contains(g.suggs[canonical@][i]));
                } else {
                    assert(seenp.contains(nm));
                    assert(key_settled(g, seenf, queue0, g.suggs[nm][i]));
                    if queue0.contains(g.suggs[nm][i]) {
                        let w3 = choose|w3: int|
                            0 <= w3 < queue0.len() && queue0[w3] == g.suggs[nm][i];
                        assert(to_resolve.deep_view()[w3] == queue0[w3]);
                    }
                }
            }
        }
        Ok(())
    }
}

/// The label of an edge kind in the graph export.
pub open spec fn kind_label(k: DepEdge) -> Seq<char> {
    match k {
        DepEdge::Requires => "Requires"@,
        DepEdge::Suggests => "Suggests"@,
        DepEdge::Follows => "Follows"@,
    }
}

/// The node lines of the graph export, for the first `k` nodes.
pub open spec fn dot_nodes(names: Seq<Seq<char>>, k: int) -> Seq<char>
    decreases k,
{
    if k <= 0 {
        Seq::empty()
    } else {
        dot_nodes(names, k - 1) + "    \""@ + names[k - 1] + "\"\n"@
    }
}

/// The edge lines of the graph export, for the first `k` edges.
pub open spec fn dot_edges(names: Seq<Seq<char>>, es: Seq<Edge>, k: int) -> Seq<char>
    decreases k,
{
    if k <= 0 {
        Seq::empty()
    } else {
        dot_edges(names, es, k - 1) + "    \""@ + names[es[k - 1].src as int] + "\" -> \""@
            + names[es[k - 1].dst as int] + "\" [label=\""@ + kind_label(es[k - 1].kind)
            + "\"]\n"@
    }
}

/// The whole graph export: one line per node, then one per labelled edge.
pub open spec fn dot_text(names: Seq<Seq<char>>, es: Seq<Edge>) -> Seq<char> {
    "digraph {\n"@ + dot_nodes(names, names.len() as int) + dot_edges(
        names,
        es,
        es.len() as int,
    ) + "}\n"@
}

impl Dependy {
    /// Serialize the graph to a textual description: one line per node, one
    /// line per labelled edge.  A pure read; writing the text to a sink is
    /// the caller's business.
    #[verifier::loop_isolation(false)]
    #[verifier::rlimit(80)]
    pub fn export_dot(&self) -> (r: String)
        requires
            self.wf(),
        ensures
            r@ == dot_text(self.names(), self.edge_list()),
    {
        let ghost names = self.names();
        let ghost es = self.edge_list();
        let mut out = String::new();
        out.append("digraph {\n");
        let n = self.graph.node_count();
        let mut i: usize = 0;
        while i < n
            invariant
                i <= names.len(),
                out@ == "digraph {\n"@ + dot_nodes(names, i as int),
            decreases names.len() - i,
        {
            out.append("    \"");
            out.append(self.graph.name_at(i).as_str());
            out.append("\"\n");
            proof {
                assert(out@ =~= "digraph {\n"@ + dot_nodes(names, i + 1));
            }
            i = i + 1;
        }
        let ghost head = "digraph {\n"@ + dot_nodes(names, names.len() as int);
        let m = self.graph.edge_count();
        let mut j: usize = 0;
        while j < m
            invariant
                j <= es.len(),
                out@ == head + dot_edges(names, es, j as int),
            decreases es.len() - j,
        {
            let e = self.graph.edge_at(j);
            let label = match e.kind {
                DepEdge::Requires => "Requires",
                DepEdge::Suggests => "Suggests",
                DepEdge::Follows => "Follows",
            };
            proof {
                assert(label@ == kind_label(e.kind));
            }
            out.append("    \"");
            out.append(self.graph.name_at(e.src).as_str());
            out.append("\" -> \"");
            out.append(self.graph.name_at(e.dst).as_str());
            out.append("\" [label=\"");
            out.append(label);
            out.append("\"]\n");
            proof {
                assert(out@ =~= head + dot_edges(names, es, j + 1));
            }
            j = j + 1;
        }
        out.append("}\n");
        proof {
            assert(out@ =~= dot_text(names, es));
        }
        out
    }
}

/// The direct predecessors of `v`, in edge insertion order.
#[verifier::loop_isolation(false)]
fn collect_parents(g: &DepGraph, v: usize) -> (r: Vec<usize>)
    requires
        g.wf(),
        v < g.nnames().len(),
    ensures
        ord_int(r@) == parents_of(g.es(), v as int),
        forall|w: int| 0 <= w < r@.len() ==> (#[trigger] r@[w]) < g.nnames().len(),
{
    broadcast use vstd::seq::Seq::lemma_filter_push;
    broadcast use vstd::seq::Seq::lemma_push_map_commute;
    broadcast use vstd::seq::Seq::lemma_take_succ_push;

    let n = g.node_count();
    let mut parents: Vec<usize> = Vec::new();
    let mut j: usize = 0;
    while j < g.edge_count()
        invariant
            j <= g.es().len(),
            ord_int(parents@) == parents_of(g.es().take(j as int), v as int),
            forall|w: int| 0 <= w < parents@.len() ==> (#[trigger] parents@[w]) < n,
        decreases g.es().len() - j,
    {
        let e = g.edge_at(j);
        proof {
            assert(g.es().take(j + 1) == g.es().take(j as int).push(g.es()[j as int]));
        }
        if e.dst == v {
            parents.push(e.src);
        }
        proof {
            let pred = |e2: Edge| e2.dst == v as int;
            let f0 = g.es().take(j as int).filter(pred);
            let f1 = g.es().take(j + 1).filter(pred);
            if e.dst == v {
                assert(f1 == f0.push(e));
                assert(ord_int(parents@) == parents_of(g.es().take(j + 1), v as int));
            } else {
                assert(f1 == f0);
            }
        }
        j = j + 1;
    }
    proof {
        assert(g.es().take(g.es().len() as int) == g.es());
    }
    parents
}

/// The ancestor visit: all direct predecessors first, in edge insertion
/// order, then the node itself; nodes already seen are skipped.  Implemented
/// with an explicit stack, so the native stack stays shallow on deep chains:
/// an entry `(v, false)` asks for the whole visit of `v`, and `(v, true)`
/// appends `v` once its predecessors are done.  Refines the mathematical
/// `visit` of the ordering module.
#[verifier::loop_isolation(false)]
fn visit_node(g: &DepGraph, seen: &mut Vec<bool>, node: usize, ord: &mut Vec<usize>)
    requires
        g.wf(),
        old(seen)@.len() == g.nnames().len(),
        node < g.nnames().len(),
    ensures
        final(seen)@.len() == g.nnames().len(),
        ({
            let r = visit(
                g.es(),
                g.nnames().len() as int,
                seen_set(old(seen)@),
                ord_int(old(ord)@),
                node as int,
            );
            seen_set(final(seen)@) == r.0 && ord_int(final(ord)@) == r.1
        }),
{
    let ghost es = g.es();
    let ghost n_int = g.nnames().len() as int;
    let n = g.node_count();
    let ghost target = visit(es, n_int, seen_set(seen@), ord_int(ord@), node as int);
    let mut stack: Vec<(usize, bool)> = Vec::new();
    stack.push((node, false));
    proof {
        assert(stack@.last() == ((node, false)));
        assert(stack@.drop_last() =~= Seq::<(usize, bool)>::empty());
        let r1 = visit(es, n_int, seen_set(seen@), ord_int(ord@), node as int);
        assert(unwind(es, n_int, Seq::<(usize, bool)>::empty(), r1.0, r1.1) == r1);
        assert(unwind(es, n_int, stack@, seen_set(seen@), ord_int(ord@)) == target);
    }
    while stack.len() > 0
        invariant
            seen@.len() == n,
            forall|w: int| 0 <= w < stack@.len() ==> (#[trigger] stack@[w]).0 < n,
            unwind(es, n_int, stack@, seen_set(seen@), ord_int(ord@)) == target,
        decreases unvisited(n_int, seen_set(seen@)), stack@.len(),
    {
        let ghost st0 = stack@;
        let ghost seen0 = seen_set(seen@);
        let ghost ord0 = ord_int(ord@);
        let fr = stack.pop().unwrap();
        let v = fr.0;
        proof {
            assert(st0.last() == fr);
            assert(stack@ =~= st0.drop_last());
        }
        if fr.1 {
            ord.push(v);
            proof {
                assert(ord_int(ord@) =~= ord0.push(v as int));
            }
        } else {
            if seen[v] {
                proof {
                    assert(seen_set(seen@).contains(v as int));
                    assert(visit(es, n_int, seen0, ord0, v as int) == ((seen0, ord0)));
                }
            } else {
                seen[v] = true;
                proof {
                    assert(seen_set(seen@) =~= seen0.insert(v as int));
                    lemma_unvisited_insert(n_int, seen0, v as int);
                }
                let parents = collect_parents(g, v);
                stack.push((v, true));
                let ghost stbase = stack@;
                let ghost ps = parents_of(es, v as int);
                let mut w: usize = parents.len();
                proof {
                    assert(ps.skip(parents@.len() as int) =~= Seq::<int>::empty());
                    assert(enters_rev(ps.skip(parents@.len() as int)) =~= Seq::<(
                        usize,
                        bool,
                    )>::empty());
                    assert(stack@ =~= stbase + enters_rev(ps.skip(parents@.len() as int)));
                }
                while w > 0
                    invariant
                        w <= parents@.len(),
                        ord_int(parents@) == ps,
                        forall|m: int| 0 <= m < parents@.len() ==> (#[trigger] parents@[m]) < n,
                        stack@ == stbase + enters_rev(ps.skip(w as int)),
                    decreases w,
                {
                    w = w - 1;
                    let ghost stprev = stack@;
                    stack.push((parents[w], false));
                    proof {
                        let tail = ps.skip(w as int);
                        assert(tail.len() == parents@.len() - w);
                        assert(stack@ =~= stbase + enters_rev(tail)) by {
                            assert forall|m: int| 0 <= m < stack@.len() implies stack@[m] == (
                            stbase + enters_rev(tail))[m] by {
                                if m < stbase.len() {
                                    assert(stack@[m] == stbase[m]);
                                } else if m < stack@.len() - 1 {
                                    assert(stack@[m] == stprev[m]);
                                    assert(stprev[m] == enters_rev(ps.skip(w + 1))[m
                                        - stbase.len()]);
                                    let q1 = ps.skip(w + 1);
                                    assert(q1.reverse()[m - stbase.len()] == q1[q1.len() - 1 - (m
                                        - stbase.len())]);
                                    assert(tail.reverse()[m - stbase.len()] == tail[tail.len() - 1
                                        - (m - stbase.len())]);
                                    assert(q1[q1.len() - 1 - (m - stbase.len())] == ps[ps.len() - 1
                                        - (m - stbase.len())]);
                                    assert(tail[tail.len() - 1 - (m - stbase.len())] == ps[ps.len()
                                        - 1 - (m - stbase.len())]);
                                } else {
                                    assert(stack@[m] == ((parents@[w as int], false)));
                                    assert(tail.reverse()[m - stbase.len()] == tail[tail.len() - 1
                                        - (m - stbase.len())]);
                                    assert(tail[tail.len() - 1 - (m - stbase.len())]
                                        == ps[w as int]);
                                    assert(ps[w as int] == parents@[w as int] as int);
                                }
                            }
                        }
                    }
                }
                proof {
                    assert(ps.skip(0) =~= ps);
                    assert(stack@ == stbase + enters_rev(ps));
                    assert(forall|i: int| 0 <= i < ps.len() ==> 0 <= #[trigger] ps[i] < n_int);
                    lemma_unwind_enters(es, n_int, stbase, ps, seen_set(seen@), ord_int(ord@));
                    let vl = visit_list(es, n_int, seen_set(seen@), ord_int(ord@), ps);
                    // the base entry of the pushed frame appends `v` itself
                    assert(stbase.last() == ((v, true)));
                    assert(stbase.drop_last() =~= st0.drop_last());
                    assert(unwind(es, n_int, stbase, vl.0, vl.1) == unwind(
                        es,
                        n_int,
                        st0.drop_last(),
                        vl.0,
                        vl.1.push(v as int),
                    ));
                    // which is exactly the whole visit of `v`
                    assert(visit(es, n_int, seen0, ord0, v as int) == ((vl.0, vl.1.push(
                        v as int,
                    ))));
                }
            }
        }
    }
    proof {
        assert(seen_set(seen@) == target.0 && ord_int(ord@) == target.1);
    }
}

} // verus!
