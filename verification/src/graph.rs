//! The reachability graph over cached rule firings.
//!
//! [`Cache::graph`] renders the memoized transitions as a directed
//! petgraph multigraph: one node per pooled state fingerprint, and one
//! edge `(base, successor)` labelled with the rule name for every cached
//! firing whose condition holds. The graph may be cyclic and may hold
//! self-loops; that is the nature of a state space, not an error.
//!
//! petgraph itself is trusted, not verified: the small wrappers below
//! state, over the two content abstractions [`graph_nodes`] and
//! [`graph_edges`], exactly what its source shows `new`, `add_node` and
//! `add_edge` do, and everything above them is proved.

use vstd::prelude::*;

use crate::alist::{alist_contains, find_index, lemma_find_index};
use crate::cache::{Cache, CacheError, CacheView, cache_action, cache_condition};
use crate::errors::ErrorKind;
use crate::rules::RuleName;
use crate::state::{PoolView, PossibleStates, StateHash};

verus! {

#[verifier::external_type_specification]
#[verifier::external_body]
#[verifier::reject_recursive_types(N)]
#[verifier::reject_recursive_types(E)]
#[verifier::reject_recursive_types(Ty)]
#[verifier::reject_recursive_types(Ix)]
pub struct ExGraph<N, E, Ty, Ix>(petgraph::graph::Graph<N, E, Ty, Ix>);

#[verifier::external_type_specification]
#[verifier::external_body]
pub struct ExDirected(petgraph::Directed);

/// The node payloads a state graph holds, in node-index order.
pub uninterp spec fn graph_nodes(g: petgraph::graph::Graph<StateHash, RuleName>) -> Seq<u64>;

/// The edges a state graph holds, in insertion order: source node index,
/// target node index, rule name.
pub uninterp spec fn graph_edges(g: petgraph::graph::Graph<StateHash, RuleName>) -> Seq<
    (int, int, Seq<char>),
>;

/// Relies on petgraph's `Graph::new`: the graph starts without nodes or
/// edges.
#[verifier::external_body]
fn graph_new() -> (g: petgraph::graph::Graph<StateHash, RuleName>)
    ensures
        graph_nodes(g) == Seq::<u64>::empty(),
        graph_edges(g) == Seq::<(int, int, Seq<char>)>::empty(),
{
    petgraph::graph::Graph::new()
}

/// Relies on petgraph's `Graph::add_node`: the node is appended and its
/// index is the previous node count; the `NodeIndex` result is converted
/// to its position via `NodeIndex::index`. Below the index-type limit,
/// which the caller stays under, `add_node` does not panic.
#[verifier::external_body]
fn graph_add_node(g: &mut petgraph::graph::Graph<StateHash, RuleName>, h: StateHash) -> (ix: usize)
    requires
        graph_nodes(*old(g)).len() < 0xFFFF_FFFFusize,
    ensures
        graph_nodes(*final(g)) == graph_nodes(*old(g)).push(h@),
        graph_edges(*final(g)) == graph_edges(*old(g)),
        ix == graph_nodes(*old(g)).len(),
{
    g.add_node(h).index()
}

/// Relies on petgraph's `Graph::add_edge`: the edge is appended with the
/// given endpoints and weight. With both endpoints in bounds and the edge
/// count under the index-type limit, which the caller guarantees,
/// `add_edge` does not panic; the endpoints are wrapped through
/// `NodeIndex::new`.
#[verifier::external_body]
fn graph_add_edge(
    g: &mut petgraph::graph::Graph<StateHash, RuleName>,
    a: usize,
    b: usize,
    rule_name: RuleName,
)
    requires
        a < graph_nodes(*old(g)).len(),
        b < graph_nodes(*old(g)).len(),
        graph_edges(*old(g)).len() < 0xFFFF_FFFFusize,
    ensures
        graph_nodes(*final(g)) == graph_nodes(*old(g)),
        graph_edges(*final(g)) == graph_edges(*old(g)).push((a as int, b as int, rule_name@)),
{
    let ai = petgraph::graph::NodeIndex::new(a);
    let bi = petgraph::graph::NodeIndex::new(b);
    g.add_edge(ai, bi, rule_name);
}

/// Why rendering the graph failed: a (rule, pooled fingerprint) pair
/// without a memoized condition or action entry, or a cached successor
/// the pool does not hold.
pub enum GraphFailure {
    MissingCondition(Seq<char>, u64),
    MissingAction(Seq<char>, u64),
    UnpooledSuccessor(Seq<char>, u64, u64),
}

/// The edges one base state contributes, rule by rule in cache order:
/// one edge per cached true firing, from node `b` to the successor's
/// pool position.
pub open spec fn edges_at_base(
    cv: CacheView,
    pv: PoolView,
    names: Seq<Seq<char>>,
    b: int,
    base_hash: u64,
) -> Result<Seq<(int, int, Seq<char>)>, GraphFailure>
    decreases names.len(),
{
    if names.len() == 0 {
        Ok(Seq::<(int, int, Seq<char>)>::empty())
    } else {
        let rn = names[0];
        match cache_condition(cv, rn, base_hash) {
            None => Err(GraphFailure::MissingCondition(rn, base_hash)),
            Some(fires) => if !fires {
                edges_at_base(cv, pv, names.drop_first(), b, base_hash)
            } else {
                match cache_action(cv, rn, base_hash) {
                    None => Err(GraphFailure::MissingAction(rn, base_hash)),
                    Some(nh) => if !alist_contains(pv, nh) {
                        Err(GraphFailure::UnpooledSuccessor(rn, base_hash, nh))
                    } else {
                        match edges_at_base(cv, pv, names.drop_first(), b, base_hash) {
                            Err(f) => Err(f),
                            Ok(rest) => Ok(seq![(b, find_index(pv, nh), rn)] + rest),
                        }
                    },
                }
            },
        }
    }
}

/// The edges of the whole graph, base state by base state in pool order.
pub open spec fn graph_fold(
    cv: CacheView,
    pv: PoolView,
    names: Seq<Seq<char>>,
    bases: Seq<u64>,
    b0: int,
) -> Result<Seq<(int, int, Seq<char>)>, GraphFailure>
    decreases bases.len(),
{
    if bases.len() == 0 {
        Ok(Seq::<(int, int, Seq<char>)>::empty())
    } else {
        match edges_at_base(cv, pv, names, b0, bases[0]) {
            Err(f) => Err(f),
            Ok(es) => match graph_fold(cv, pv, names, bases.drop_first(), b0 + 1) {
                Err(f) => Err(f),
                Ok(rest) => Ok(es + rest),
            },
        }
    }
}

/// What rendering a cache over a pool produces: the exact edge list, one
/// edge per cached true firing in (pool order, rule order), or the first
/// failure met.
pub open spec fn graph_spec(cv: CacheView, pv: PoolView) -> Result<
    Seq<(int, int, Seq<char>)>,
    GraphFailure,
> {
    graph_fold(
        cv,
        pv,
        cv.map_values(|p: (Seq<char>, crate::cache::RuleCacheView)| p.0),
        pv.map_values(|p: (u64, crate::state::StateView)| p.0),
        0,
    )
}

/// Graph consistency: every edge `(u, v, r)` of a cache-rendered graph
/// joins pooled fingerprints such that rule `r`'s condition is cached
/// true at `u` and its cached action leads from `u` to `v`.
pub open spec fn graph_consistent(
    nodes: Seq<u64>,
    edges: Seq<(int, int, Seq<char>)>,
    cv: crate::cache::CacheView,
) -> bool {
    forall|e: int|
        0 <= e < edges.len() ==> {
            let edge = #[trigger] edges[e];
            &&& 0 <= edge.0 < nodes.len()
            &&& 0 <= edge.1 < nodes.len()
            &&& cache_condition(cv, edge.2, nodes[edge.0]) == Some(true)
            &&& cache_action(cv, edge.2, nodes[edge.0]) == Some(nodes[edge.1])
        }
}

impl Cache {
    /// Renders the cached transitions over `possible_states` as a
    /// directed multigraph: one node per pooled fingerprint, in pool
    /// order, and one edge per cached true firing of each rule. A rule
    /// without a memoized entry at some node is an error, as is a cached
    /// successor that the pool does not hold.
    #[verifier::loop_isolation(false)]
    pub fn graph(&self, possible_states: &PossibleStates) -> (r: Result<
        petgraph::graph::Graph<StateHash, RuleName>,
        ErrorKind,
    >)
        requires
            self.wf(),
            possible_states.wf(),
            possible_states@.len() < 0xFFFF_FFFF,
            self@.len() * possible_states@.len() < 0xFFFF_FFFF,
        ensures
            match r {
                Ok(g) => {
                    &&& graph_nodes(g) == possible_states@.map_values(
                        |p: (u64, crate::state::StateView)| p.0,
                    )
                    &&& graph_spec(self@, possible_states@) == Ok::<
                        Seq<(int, int, Seq<char>)>,
                        GraphFailure,
                    >(graph_edges(g))
                    &&& graph_consistent(graph_nodes(g), graph_edges(g), self@)
                    &&& forall|e: int|
                        0 <= e < graph_edges(g).len() ==> alist_contains(
                            possible_states@,
                            graph_nodes(g)[(#[trigger] graph_edges(g)[e]).1],
                        )
                },
                Err(e) => graph_spec(self@, possible_states@) matches Err(f) && match f {
                    GraphFailure::MissingCondition(rn, h) => e matches ErrorKind::CacheErr(ce)
                        && ce matches CacheError::ConditionNotFound { base_state_hash } &&
                        base_state_hash@ == h,
                    GraphFailure::MissingAction(rn, h) => e matches ErrorKind::CacheErr(ce) && ce
                        matches CacheError::ActionNotFound { base_state_hash } &&
                        base_state_hash@ == h,
                    GraphFailure::UnpooledSuccessor(rn, h, v) => e matches ErrorKind::StateNotFound(
                        sh,
                    ) && sh@ == v,
                },
            },
    {
        let ghost pool_hashes = possible_states@.map_values(
            |p: (u64, crate::state::StateView)| p.0,
        );
        let mut g = graph_new();
        let entries = possible_states.iter();
        let n = entries.len();
        let mut i: usize = 0;
        while i < n
            invariant
                i <= n,
                n == possible_states@.len(),
                entries@.map_values(|p: (StateHash, crate::state::State)| (p.0@, p.1@))
                    == possible_states@,
                graph_nodes(g) =~= pool_hashes.take(i as int),
                graph_edges(g) == Seq::<(int, int, Seq<char>)>::empty(),
            decreases n - i,
        {
            let ix = graph_add_node(&mut g, entries[i].0);
            proof {
                assert(pool_hashes.take(i + 1) =~= pool_hashes.take(i as int).push(
                    pool_hashes[i as int],
                ));
            }
            i = i + 1;
        }
        proof {
            assert(pool_hashes.take(n as int) =~= pool_hashes);
        }
        let rule_names = self.rule_names();
        let nrules = rule_names.len();
        let ghost names = self@.map_values(|p: (Seq<char>, crate::cache::RuleCacheView)| p.0);
        let ghost pv = possible_states@;
        let mut b: usize = 0;
        proof {
            assert(names.len() == nrules);
            assert(forall|t: int| 0 <= t < nrules ==> (#[trigger] rule_names@[t])@ == names[t]);
            assert(pool_hashes.skip(0) =~= pool_hashes);
            match graph_fold(self@, pv, names, pool_hashes, 0) {
                Ok(rest) => {
                    assert(graph_edges(g) + rest =~= rest);
                },
                Err(f) => {},
            }
        }
        while b < n
            invariant
                b <= n,
                n == possible_states@.len(),
                nrules == self@.len(),
                rule_names@.len() == nrules,
                names == self@.map_values(|p: (Seq<char>, crate::cache::RuleCacheView)| p.0),
                pv == possible_states@,
                forall|t: int| 0 <= t < nrules ==> (#[trigger] rule_names@[t])@ == names[t],
                entries@.map_values(|p: (StateHash, crate::state::State)| (p.0@, p.1@))
                    == possible_states@,
                graph_nodes(g) == pool_hashes,
                graph_edges(g).len() <= (b as int) * (nrules as int),
                graph_consistent(graph_nodes(g), graph_edges(g), self@),
                forall|e: int|
                    0 <= e < graph_edges(g).len() ==> alist_contains(
                        possible_states@,
                        graph_nodes(g)[(#[trigger] graph_edges(g)[e]).1],
                    ),
                graph_spec(self@, possible_states@) == (match graph_fold(
                    self@,
                    pv,
                    names,
                    pool_hashes.skip(b as int),
                    b as int,
                ) {
                    Ok(rest) => Ok::<Seq<(int, int, Seq<char>)>, GraphFailure>(
                        graph_edges(g) + rest,
                    ),
                    Err(f) => Err::<Seq<(int, int, Seq<char>)>, GraphFailure>(f),
                }),
            decreases n - b,
        {
            let base_hash = entries[b].0;
            let ghost e_base = graph_edges(g);
            proof {
                assert(pool_hashes.skip(b as int)[0] == pool_hashes[b as int]);
                assert(pool_hashes[b as int] == base_hash@);
                assert(pool_hashes.skip(b as int).drop_first() =~= pool_hashes.skip(b + 1));
                assert(graph_spec(self@, possible_states@) == (match graph_fold(
                    self@,
                    pv,
                    names,
                    pool_hashes.skip(b as int),
                    b as int,
                ) {
                    Ok(rest) => Ok::<Seq<(int, int, Seq<char>)>, GraphFailure>(e_base + rest),
                    Err(f) => Err::<Seq<(int, int, Seq<char>)>, GraphFailure>(f),
                }));
                assert(names.skip(0) =~= names);
                assert(graph_edges(g).skip(e_base.len() as int) =~= Seq::<
                    (int, int, Seq<char>),
                >::empty());
                match edges_at_base(self@, pv, names, b as int, base_hash@) {
                    Ok(rest) => {
                        assert(Seq::<(int, int, Seq<char>)>::empty() + rest =~= rest);
                    },
                    Err(f) => {},
                }
            }
            let mut t: usize = 0;
            while t < nrules
                invariant
                    b < n,
                    t <= nrules,
                    n == possible_states@.len(),
                    nrules == self@.len(),
                    rule_names@.len() == nrules,
                    names == self@.map_values(|p: (Seq<char>, crate::cache::RuleCacheView)| p.0),
                    pv == possible_states@,
                    forall|u: int| 0 <= u < nrules ==> (#[trigger] rule_names@[u])@ == names[u],
                    entries@.map_values(|p: (StateHash, crate::state::State)| (p.0@, p.1@))
                        == possible_states@,
                    pool_hashes[b as int] == base_hash@,
                    graph_nodes(g) == pool_hashes,
                    e_base.len() <= graph_edges(g).len(),
                    graph_edges(g).len() <= (b as int) * (nrules as int) + t,
                    e_base =~= graph_edges(g).take(e_base.len() as int),
                    graph_consistent(graph_nodes(g), graph_edges(g), self@),
                    forall|e: int|
                        0 <= e < graph_edges(g).len() ==> alist_contains(
                            possible_states@,
                            graph_nodes(g)[(#[trigger] graph_edges(g)[e]).1],
                        ),
                    edges_at_base(self@, pv, names, b as int, base_hash@) == (match edges_at_base(
                        self@,
                        pv,
                        names.skip(t as int),
                        b as int,
                        base_hash@,
                    ) {
                        Ok(rest) => Ok::<Seq<(int, int, Seq<char>)>, GraphFailure>(
                            graph_edges(g).skip(e_base.len() as int) + rest,
                        ),
                        Err(f) => Err::<Seq<(int, int, Seq<char>)>, GraphFailure>(f),
                    }),
                decreases nrules - t,
            {
                let ghost es_top = graph_edges(g);
                proof {
                    assert(names.skip(t as int)[0] == names[t as int]);
                    assert(names.skip(t as int).drop_first() =~= names.skip(t + 1));
                    assert(rule_names@[t as int]@ == names[t as int]);
                    assert(self@[t as int].0 == names[t as int]);
                    assert(alist_contains(self@, names[t as int]));
                }
                let rule_name = rule_names[t];
                let fires = match self.condition(rule_name, &base_hash) {
                    Ok(v) => v.is_true(),
                    Err(e) => {
                        proof {
                            assert(edges_at_base(
                                self@,
                                pv,
                                names.skip(t as int),
                                b as int,
                                base_hash@,
                            ) is Err);
                        }
                        return Err(ErrorKind::CacheErr(e));
                    },
                };
                if fires {
                    let new_hash = match self.action(rule_name, &base_hash) {
                        Ok(h) => h,
                        Err(e) => {
                            proof {
                                assert(edges_at_base(
                                    self@,
                                    pv,
                                    names.skip(t as int),
                                    b as int,
                                    base_hash@,
                                ) is Err);
                            }
                            return Err(ErrorKind::CacheErr(e));
                        },
                    };
                    let target = match possible_states.index_of(&new_hash) {
                        Some(ix) => ix,
                        None => {
                            proof {
                                assert(!alist_contains(pv, new_hash@));
                                assert(edges_at_base(
                                    self@,
                                    pv,
                                    names.skip(t as int),
                                    b as int,
                                    base_hash@,
                                ) is Err);
                            }
                            return Err(ErrorKind::StateNotFound(new_hash));
                        },
                    };
                    proof {
                        assert((b as int) * (nrules as int) + t < (n as int) * (nrules as int))
                            by (nonlinear_arith)
                            requires
                                0 <= b < n,
                                0 <= t < nrules,
                        ;
                        assert((n as int) * (nrules as int) == (nrules as int) * (n as int))
                            by (nonlinear_arith);
                        assert(pv[target as int].0 == new_hash@);
                        assert(alist_contains(pv, new_hash@));
                        lemma_find_index(pv, new_hash@);
                        assert(find_index(pv, new_hash@) == target);
                        assert(pool_hashes[target as int] == new_hash@);
                    }
                    let ghost edges_before = graph_edges(g);
                    graph_add_edge(&mut g, b, target, rule_name.clone());
                    proof {
                        assert forall|e: int| 0 <= e < graph_edges(g).len() implies {
                            let edge = #[trigger] graph_edges(g)[e];
                            &&& 0 <= edge.0 < graph_nodes(g).len()
                            &&& 0 <= edge.1 < graph_nodes(g).len()
                            &&& cache_condition(self@, edge.2, graph_nodes(g)[edge.0]) == Some(true)
                            &&& cache_action(self@, edge.2, graph_nodes(g)[edge.0]) == Some(
                                graph_nodes(g)[edge.1],
                            )
                            &&& alist_contains(
                                possible_states@,
                                graph_nodes(g)[graph_edges(g)[e].1],
                            )
                        } by {
                            if e < edges_before.len() {
                                assert(graph_edges(g)[e] == edges_before[e]);
                            } else {
                                assert(graph_edges(g)[e] == (b as int, target as int, rule_name@));
                            }
                        }
                        assert(e_base =~= graph_edges(g).take(e_base.len() as int));
                        assert(graph_edges(g).skip(e_base.len() as int) =~= es_top.skip(
                            e_base.len() as int,
                        ).push((b as int, target as int, rule_name@)));
                        match edges_at_base(self@, pv, names.skip(t + 1), b as int, base_hash@) {
                            Ok(rest) => {
                                assert(es_top.skip(e_base.len() as int) + (seq![
                                    (b as int, target as int, rule_name@),
                                ] + rest) =~= es_top.skip(e_base.len() as int).push(
                                    (b as int, target as int, rule_name@),
                                ) + rest);
                            },
                            Err(f) => {},
                        }
                    }
                }
                t = t + 1;
            }
            proof {
                assert((b as int) * (nrules as int) + (nrules as int) == ((b as int) + 1) * (
                nrules as int)) by (nonlinear_arith);
                assert(names.skip(nrules as int) =~= Seq::<Seq<char>>::empty());
                assert(graph_edges(g).skip(e_base.len() as int) + Seq::<
                    (int, int, Seq<char>),
                >::empty() =~= graph_edges(g).skip(e_base.len() as int));
                assert(edges_at_base(self@, pv, names, b as int, base_hash@) == Ok::<
                    Seq<(int, int, Seq<char>)>,
                    GraphFailure,
                >(graph_edges(g).skip(e_base.len() as int)));
                assert(e_base + graph_edges(g).skip(e_base.len() as int) =~= graph_edges(g));
                match graph_fold(self@, pv, names, pool_hashes.skip(b + 1), b + 1) {
                    Ok(rest) => {
                        assert(e_base + (graph_edges(g).skip(e_base.len() as int) + rest)
                            =~= graph_edges(g) + rest);
                    },
                    Err(f) => {},
                }
            }
            b = b + 1;
        }
        proof {
            assert(pool_hashes.skip(n as int) =~= Seq::<u64>::empty());
            match graph_fold(self@, pv, names, pool_hashes.skip(n as int), n as int) {
                Ok(rest) => {
                    assert(graph_edges(g) + rest =~= graph_edges(g));
                },
                Err(f) => {},
            }
        }
        Ok(g)
    }
}

} // verus!
