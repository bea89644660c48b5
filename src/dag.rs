//! The dependency graph of a configuration and the build order drawn from it.
use vstd::prelude::*;

use crate::config::{BuildConfig, Recipe};
use crate::error::{BakeError, ErrorKind};
use crate::sort::{int_keys, is_stable_sort, lemma_stable_sort_keeps_ties, stable_sort_by_key};
use crate::graph::{
    add_edge, add_node, edge_list, has_edge, is_topological_order, is_walk, lemma_cycle_has_no_order, position, toposort, edges_in_range, graph_edges, graph_node_count, has_cycle, new_graph,
    MAX_GRAPH_ITEMS,
};

verus! {

/// The dependency graph of a configuration: node `i` is the recipe declared at
/// position `i`, and an edge runs from each dependency to its dependent.
pub struct Dag<'a> {
    pub graph: petgraph::graph::DiGraph<(), i64>,
    pub recipes: &'a Vec<Recipe>,
}

impl<'a> Dag<'a> {
    /// One node per recipe, and every edge between two of them.
    pub open spec fn wf(&self) -> bool {
        &&& graph_node_count(self.graph) == self.recipes@.len()
        &&& self.recipes@.len() <= MAX_GRAPH_ITEMS
        &&& graph_edges(self.graph).len() <= MAX_GRAPH_ITEMS
        &&& edges_in_range(self.recipes@.len(), graph_edges(self.graph))
    }

    pub open spec fn edges(&self) -> Seq<(usize, usize, i64)> {
        graph_edges(self.graph)
    }
}

/// The index of the last recipe declared under `name`, if any: a later
/// declaration hides an earlier one of the same name.
pub open spec fn lookup(rs: Seq<Recipe>, name: Seq<char>) -> Option<int>
    decreases rs.len(),
{
    if rs.len() == 0 {
        None
    } else if rs.last().name@ == name {
        Some(rs.len() - 1)
    } else {
        lookup(rs.drop_last(), name)
    }
}

/// The edge that dependency `d` of recipe `i` gives: from the dependency's node
/// to the recipe's, weighted by the distance of their declarations.
pub open spec fn dependency_edge(rs: Seq<Recipe>, i: int, d: Seq<char>) -> (usize, usize, i64) {
    let from = lookup(rs, d)->Some_0;
    let to = lookup(rs, rs[i].name@)->Some_0;
    (from as usize, to as usize, (i - from) as i64)
}

/// The edges of the first `n` recipes, recipe by recipe, each in the order of its
/// dependency list.
pub open spec fn dependency_edges_upto(rs: Seq<Recipe>, n: int) -> Seq<(usize, usize, i64)>
    decreases n,
{
    if n <= 0 {
        Seq::empty()
    } else {
        dependency_edges_upto(rs, n - 1) + rs[n - 1].deps().map_values(
            |d: String| dependency_edge(rs, n - 1, d@),
        )
    }
}

/// The edges of the dependency graph of `rs`.
pub open spec fn dependency_edges(rs: Seq<Recipe>) -> Seq<(usize, usize, i64)> {
    dependency_edges_upto(rs, rs.len() as int)
}

/// Every dependency of the first `n` recipes names a declared recipe.
pub open spec fn resolved_upto(rs: Seq<Recipe>, n: int) -> bool {
    forall|i: int, k: int|
        0 <= i < n && 0 <= k < rs[i].deps().len() ==> (#[trigger] lookup(rs, rs[i].deps()[k]@)) is Some
}

/// Every dependency names a declared recipe.
pub open spec fn all_resolved(rs: Seq<Recipe>) -> bool {
    resolved_upto(rs, rs.len() as int)
}

/// Dependency `k` of recipe `i` is the first, in declaration order, that names
/// no recipe.
pub open spec fn is_first_missing(rs: Seq<Recipe>, i: int, k: int) -> bool {
    &&& 0 <= i < rs.len()
    &&& 0 <= k < rs[i].deps().len()
    &&& lookup(rs, rs[i].deps()[k]@) is None
    &&& resolved_upto(rs, i)
    &&& forall|j: int| 0 <= j < k ==> (#[trigger] lookup(rs, rs[i].deps()[j]@)) is Some
}

/// The graph of `rs` can be built: every dependency resolves and there is no cycle.
pub open spec fn dag_builds(rs: Seq<Recipe>) -> bool {
    all_resolved(rs) && !has_cycle(dependency_edges(rs))
}

/// The sizes that a graph with `u32` indices can hold.
pub open spec fn fits_graph(rs: Seq<Recipe>) -> bool {
    rs.len() <= MAX_GRAPH_ITEMS && dependency_edges(rs).len() <= MAX_GRAPH_ITEMS
}

proof fn lemma_lookup_bounds(rs: Seq<Recipe>, name: Seq<char>)
    ensures
        lookup(rs, name) is Some ==> 0 <= lookup(rs, name)->Some_0 < rs.len()
            && rs[lookup(rs, name)->Some_0].name@ == name,
        lookup(rs, name) is None ==> forall|j: int| 0 <= j < rs.len() ==> rs[j].name@ != name,
    decreases rs.len(),
{
    if rs.len() > 0 {
        lemma_lookup_bounds(rs.drop_last(), name);
        assert forall|j: int| 0 <= j < rs.len() - 1 implies rs[j] == rs.drop_last()[j] by {}
    }
}

/// A declared name resolves, to its last declaration.
proof fn lemma_lookup_declared(rs: Seq<Recipe>, i: int)
    requires
        0 <= i < rs.len(),
    ensures
        lookup(rs, rs[i].name@) is Some,
        i <= lookup(rs, rs[i].name@)->Some_0 < rs.len(),
    decreases rs.len(),
{
    if i < rs.len() - 1 {
        lemma_lookup_declared(rs.drop_last(), i);
    }
}

/// The index of the last recipe named `name`.
fn find_recipe_index(rs: &Vec<Recipe>, name: &String) -> (r: Option<usize>)
    ensures
        match r {
            Some(i) => lookup(rs@, name@) == Some(i as int),
            None => lookup(rs@, name@) is None,
        },
{
    let mut found: Option<usize> = None;
    let mut i: usize = 0;
    while i < rs.len()
        invariant
            i <= rs@.len(),
            match found {
                Some(j) => lookup(rs@.subrange(0, i as int), name@) == Some(j as int),
                None => lookup(rs@.subrange(0, i as int), name@) is None,
            },
        decreases rs@.len() - i,
    {
        assert(rs@.subrange(0, i as int + 1).drop_last() =~= rs@.subrange(0, i as int));
        if rs[i].name == *name {
            found = Some(i);
        }
        i += 1;
    }
    assert(rs@.subrange(0, rs@.len() as int) =~= rs@);
    found
}

/// Whether `config` fits the graph: at most `MAX_GRAPH_ITEMS` recipes and as
/// many dependencies in all.
pub fn fits_graph_limits(config: &BuildConfig) -> (r: bool)
    ensures
        r == fits_graph(config.recipes@),
{
    let rs = &config.recipes;
    if rs.len() > MAX_GRAPH_ITEMS {
        return false;
    }
    let mut total: usize = 0;
    let mut i: usize = 0;
    while i < rs.len()
        invariant
            rs == &config.recipes,
            rs@.len() <= MAX_GRAPH_ITEMS,
            i <= rs@.len(),
            total == dependency_edges_upto(rs@, i as int).len(),
            total <= MAX_GRAPH_ITEMS,
        decreases rs@.len() - i,
    {
        let count = match &rs[i].dependencies {
            Some(deps) => deps.len(),
            None => 0,
        };
        proof {
            assert(count == rs@[i as int].deps().len());
            lemma_edges_upto_grow(rs@, i as int + 1, rs@.len() as int);
        }
        if count > MAX_GRAPH_ITEMS - total {
            proof {
                lemma_edges_upto_grow(rs@, i as int + 1, rs@.len() as int);
            }
            return false;
        }
        total = total + count;
        i += 1;
    }
    true
}

/// Builds the dependency graph of `config`: one node per recipe, in declaration
/// order, and for each dependency an edge from the dependency to the recipe. Fails
/// with the first dependency that names no recipe, and then, if the graph has a
/// cycle, with `CycleDetected`.
pub fn build_dag<'a>(config: &'a BuildConfig) -> (r: Result<Dag<'a>, BakeError>)
    requires
        fits_graph(config.recipes@),
    ensures
        r is Ok <==> dag_builds(config.recipes@),
        match r {
            Ok(dag) => {
                &&& dag.wf()
                &&& dag.recipes == &config.recipes
                &&& dag.edges() == dependency_edges(config.recipes@)
            },
            Err(e) => match e.kind {
                ErrorKind::DependencyNotFound { recipe, dependency } => exists|i: int, k: int|
                    is_first_missing(config.recipes@, i, k) && recipe@ == config.recipes@[i].name@
                        && dependency@ == config.recipes@[i].deps()[k]@,
                ErrorKind::CycleDetected => all_resolved(config.recipes@) && has_cycle(
                    dependency_edges(config.recipes@),
                ),
                _ => false,
            },
        },
{
    let rs = &config.recipes;
    let n = rs.len();
    let mut graph = new_graph();
    let mut i: usize = 0;
    while i < n
        invariant
            n == rs@.len(),
            n <= MAX_GRAPH_ITEMS,
            i <= n,
            graph_node_count(graph) == i,
            graph_edges(graph) == Seq::<(usize, usize, i64)>::empty(),
        decreases n - i,
    {
        add_node(&mut graph);
        i += 1;
    }

    let mut i: usize = 0;
    while i < n
        invariant
            rs == &config.recipes,
            n == rs@.len(),
            fits_graph(rs@),
            i <= n,
            graph_node_count(graph) == n,
            resolved_upto(rs@, i as int),
            graph_edges(graph) == dependency_edges_upto(rs@, i as int),
        decreases n - i,
    {
        let recipe = &rs[i];
        proof {
            lemma_lookup_declared(rs@, i as int);
            lemma_edges_upto_grow(rs@, i as int + 1, n as int);
        }
        let own = find_recipe_index(rs, &recipe.name);
        let to = own.unwrap();
        match &recipe.dependencies {
            Some(deps) => {
                let mut k: usize = 0;
                while k < deps.len()
                    invariant
                        rs == &config.recipes,
                        n == rs@.len(),
                        fits_graph(rs@),
                        i < n,
                        k <= deps@.len(),
                        recipe == rs@[i as int],
                        recipe.deps() == deps@,
                        lookup(rs@, recipe.name@) == Some(to as int),
                        i as int <= to < n,
                        graph_node_count(graph) == n,
                        resolved_upto(rs@, i as int),
                        forall|j: int| 0 <= j < k ==> (#[trigger] lookup(rs@, deps@[j]@)) is Some,
                        dependency_edges_upto(rs@, i as int + 1).len() <= MAX_GRAPH_ITEMS,
                        graph_edges(graph) == dependency_edges_upto(rs@, i as int) + deps@.subrange(
                            0,
                            k as int,
                        ).map_values(|d: String| dependency_edge(rs@, i as int, d@)),
                    decreases deps@.len() - k,
                {
                    let dep = &deps[k];
                    match find_recipe_index(rs, dep) {
                        Some(from) => {
                            proof {
                                lemma_lookup_bounds(rs@, dep@);
                            }
                            let w = i as i64 - from as i64;
                            proof {
                                let prev = deps@.subrange(0, k as int).map_values(
                                    |d: String| dependency_edge(rs@, i as int, d@),
                                );
                                let next = deps@.subrange(0, k as int + 1).map_values(
                                    |d: String| dependency_edge(rs@, i as int, d@),
                                );
                                assert(next =~= prev.push(dependency_edge(rs@, i as int, dep@)));
                                let all = deps@.map_values(
                                    |d: String| dependency_edge(rs@, i as int, d@),
                                );
                                assert(dependency_edges_upto(rs@, i as int + 1) == dependency_edges_upto(rs@, i as int) + all);
                                assert(graph_edges(graph).len() == dependency_edges_upto(rs@, i as int).len() + k);
                            }
                            add_edge(&mut graph, from, to, w);
                            proof {
                                let prev = deps@.subrange(0, k as int).map_values(
                                    |d: String| dependency_edge(rs@, i as int, d@),
                                );
                                let next = deps@.subrange(0, k as int + 1).map_values(
                                    |d: String| dependency_edge(rs@, i as int, d@),
                                );
                                assert(next =~= prev.push(dependency_edge(rs@, i as int, dep@)));
                                assert(dependency_edges_upto(rs@, i as int) + next =~= (
                                dependency_edges_upto(rs@, i as int) + prev).push(
                                    dependency_edge(rs@, i as int, dep@),
                                ));
                            }
                        },
                        None => {
                            let recipe_name = recipe.name.clone();
                            let dependency = dep.clone();
                            proof {
                                assert(lookup(rs@, rs@[i as int].deps()[k as int]@) is None);
                                assert(is_first_missing(rs@, i as int, k as int));
                                assert(!all_resolved(rs@));
                                assert(recipe_name@ == rs@[i as int].name@);
                                assert(dependency@ == rs@[i as int].deps()[k as int]@);
                            }
                            return Err(
                                BakeError::new(
                                    ErrorKind::DependencyNotFound { recipe: recipe_name, dependency },
                                ),
                            );
                        },
                    }
                    k += 1;
                }
                proof {
                    assert(deps@.subrange(0, deps@.len() as int) =~= deps@);
                }
            },
            None => {
                proof {
                    assert(recipe.deps().map_values(|d: String| dependency_edge(rs@, i as int, d@))
                        =~= Seq::empty());
                    assert(dependency_edges_upto(rs@, i as int + 1) =~= dependency_edges_upto(rs@, i as int));
                }
            },
        }
        i += 1;
    }
    proof {
        lemma_dependency_edges_in_range(rs@, n as int);
    }
    match toposort(&graph) {
        Ok(_) => Ok(Dag { graph, recipes: rs }),
        Err(_) => Err(BakeError::new(ErrorKind::CycleDetected)),
    }
}

/// Every dependency edge of resolved recipes joins two recipes.
proof fn lemma_dependency_edges_in_range(rs: Seq<Recipe>, n: int)
    requires
        0 <= n <= rs.len(),
        resolved_upto(rs, n),
    ensures
        edges_in_range(rs.len(), dependency_edges_upto(rs, n)),
    decreases n,
{
    if n > 0 {
        lemma_dependency_edges_in_range(rs, n - 1);
        let i = n - 1;
        let own = rs[i].deps().map_values(|d: String| dependency_edge(rs, i, d@));
        lemma_lookup_declared(rs, i);
        assert forall|k: int| 0 <= k < own.len() implies (own[k].0 as int) < rs.len() && (
        own[k].1 as int) < rs.len() by {
            assert(lookup(rs, rs[i].deps()[k]@) is Some);
            lemma_lookup_bounds(rs, rs[i].deps()[k]@);
        }
        let prev = dependency_edges_upto(rs, i);
        assert forall|k: int| 0 <= k < prev.len() + own.len() implies ((prev + own)[k].0 as int)
            < rs.len() && ((prev + own)[k].1 as int) < rs.len() by {
            if k >= prev.len() {
                assert((prev + own)[k] == own[k - prev.len()]);
            }
        }
    }
}

/// The edge lists of fewer recipes are prefixes of those of more.
proof fn lemma_edges_upto_grow(rs: Seq<Recipe>, a: int, b: int)
    requires
        0 <= a <= b,
    ensures
        dependency_edges_upto(rs, a).len() <= dependency_edges_upto(rs, b).len(),
    decreases b - a,
{
    if a < b {
        lemma_edges_upto_grow(rs, a, b - 1);
    }
}

/// The sum of the weights of the edges into node `v`.
pub open spec fn incoming_weight(edges: Seq<(usize, usize, i64)>, v: int) -> int
    decreases edges.len(),
{
    if edges.len() == 0 {
        0
    } else {
        incoming_weight(edges.drop_last(), v) + if edges.last().1 as int == v {
            edges.last().2 as int
        } else {
            0
        }
    }
}

/// The incoming weight of each of the nodes `0..n`.
pub open spec fn incoming_weights(edges: Seq<(usize, usize, i64)>, n: nat) -> Seq<int> {
    Seq::new(n, |v: int| incoming_weight(edges, v))
}

/// `names` lists the names of the recipes at the positions `order` gives.
pub open spec fn names_in_order(rs: Seq<Recipe>, order: Seq<usize>, names: Seq<String>) -> bool {
    &&& names.len() == order.len()
    &&& forall|i: int| 0 <= i < names.len() ==> #[trigger] names[i]@ == rs[order[i] as int].name@
}

/// `names` is a build order of the dependency graph `dag`: the names of a
/// topological order of its nodes, stably resorted by ascending incoming weight.
pub open spec fn is_build_order(dag: Dag, names: Seq<String>) -> bool {
    exists|first: Seq<usize>, order: Seq<usize>|
        is_topological_order(dag.recipes@.len(), dag.edges(), first) && is_stable_sort(
            first,
            order,
            incoming_weights(dag.edges(), dag.recipes@.len()),
        ) && names_in_order(dag.recipes@, order, names)
}

/// The incoming weight of every node, from the edge list.
fn incoming_weight_keys(edges: &Vec<(usize, usize, i64)>, n: usize) -> (keys: Vec<i128>)
    requires
        edges_in_range(n as nat, edges@),
        edges@.len() <= MAX_GRAPH_ITEMS,
    ensures
        int_keys(keys@) == incoming_weights(edges@, n as nat),
{
    let mut keys: Vec<i128> = Vec::new();
    let mut v: usize = 0;
    while v < n
        invariant
            v <= n,
            keys@.len() == v,
            forall|u: int| 0 <= u < v ==> keys@[u] == 0,
        decreases n - v,
    {
        keys.push(0);
        v += 1;
    }
    let mut j: usize = 0;
    while j < edges.len()
        invariant
            edges_in_range(n as nat, edges@),
            edges@.len() <= MAX_GRAPH_ITEMS,
            j <= edges@.len(),
            keys@.len() == n,
            forall|u: int|
                0 <= u < n ==> keys@[u] as int == #[trigger] incoming_weight(
                    edges@.subrange(0, j as int),
                    u,
                ),
            forall|u: int|
                0 <= u < n ==> -(j as int) * 0x8000_0000_0000_0000 <= #[trigger] keys@[u] <= (
                j as int) * 0x8000_0000_0000_0000,
        decreases edges@.len() - j,
    {
        let (_, t, w) = edges[j];
        let cur = keys[t];
        keys.set(t, cur + w as i128);
        proof {
            let prev = edges@.subrange(0, j as int);
            let next = edges@.subrange(0, j as int + 1);
            assert(next.drop_last() =~= prev);
            assert(next.last() == edges@[j as int]);
            assert forall|u: int| 0 <= u < n implies keys@[u] as int == #[trigger] incoming_weight(
                next,
                u,
            ) by {
                assert(incoming_weight(next, u) == incoming_weight(prev, u) + if t as int == u {
                    w as int
                } else {
                    0
                });
            }
        }
        j += 1;
    }
    proof {
        assert(edges@.subrange(0, edges@.len() as int) =~= edges@);
        assert(int_keys(keys@) =~= incoming_weights(edges@, n as nat));
    }
    keys
}

/// The build order of `dag`: a topological order of its recipes (each
/// dependency before its dependents), then stably resorted by the sum of the
/// weights of each recipe's incoming edges. Fails with `CycleDetected` exactly
/// when the graph has a cycle.
pub fn topological_sort(dag: &Dag) -> (r: Result<Vec<String>, BakeError>)
    requires
        dag.wf(),
    ensures
        r is Ok <==> !has_cycle(dag.edges()),
        match r {
            Ok(names) => is_build_order(*dag, names@),
            Err(e) => e.kind is CycleDetected,
        },
{
    let first = match toposort(&dag.graph) {
        Ok(first) => first,
        Err(_) => {
            return Err(BakeError::new(ErrorKind::CycleDetected));
        },
    };
    let n = dag.recipes.len();
    let edges = edge_list(&dag.graph);
    let keys = incoming_weight_keys(&edges, n);
    proof {
        assert(keys@.len() == int_keys(keys@).len());
    }
    let order = stable_sort_by_key(&first, &keys);
    proof {
        broadcast use vstd::seq_lib::group_to_multiset_ensures;
        assert forall|i: int| 0 <= i < order@.len() implies (order@[i] as int) < n by {
            assert(order@.contains(order@[i]));
            assert(order@.to_multiset().count(order@[i]) > 0);
            assert(first@.to_multiset().count(order@[i]) > 0);
            assert(first@.contains(order@[i]));
        }
    }
    let mut names: Vec<String> = Vec::new();
    let mut i: usize = 0;
    while i < order.len()
        invariant
            dag.wf(),
            n == dag.recipes@.len(),
            i <= order@.len(),
            forall|i: int| 0 <= i < order@.len() ==> (order@[i] as int) < n,
            names_in_order(dag.recipes@, order@.subrange(0, i as int), names@),
        decreases order@.len() - i,
    {
        let name = dag.recipes[order[i]].name.clone();
        names.push(name);
        i += 1;
    }
    proof {
        assert(order@.subrange(0, order@.len() as int) =~= order@);
        assert(is_topological_order(n as nat, dag.edges(), first@));
        assert(is_stable_sort(first@, order@, incoming_weights(dag.edges(), n as nat)));
        assert(names_in_order(dag.recipes@, order@, names@));
        assert(is_build_order(*dag, names@));
    }
    Ok(names)
}

/// The first recipe of `dag` declared under `name`, if any.
pub fn get_recipe<'a>(dag: &Dag<'a>, name: &str) -> (r: Option<&'a Recipe>)
    ensures
        match r {
            Some(recipe) => exists|i: int|
                0 <= i < dag.recipes@.len() && *recipe == dag.recipes@[i] && recipe.name@ == name@
                    && forall|j: int| 0 <= j < i ==> (#[trigger] dag.recipes@[j]).name@ != name@,
            None => forall|j: int| 0 <= j < dag.recipes@.len() ==> (#[trigger] dag.recipes@[j]).name@ != name@,
        },
{
    let wanted = String::from_str(name);
    let recipes: &'a Vec<Recipe> = dag.recipes;
    let mut i: usize = 0;
    while i < recipes.len()
        invariant
            recipes == dag.recipes,
            wanted@ == name@,
            i <= recipes@.len(),
            forall|j: int| 0 <= j < i ==> (#[trigger] recipes@[j]).name@ != name@,
        decreases recipes@.len() - i,
    {
        if recipes[i].name == wanted {
            return Some(&recipes[i]);
        }
        i += 1;
    }
    None
}

/// Dependency `k` of recipe `i` gives an edge of the graph of `rs`.
proof fn lemma_dependency_edge_listed(rs: Seq<Recipe>, i: int, k: int, n: int)
    requires
        0 <= i < n <= rs.len(),
        0 <= k < rs[i].deps().len(),
    ensures
        exists|e: int|
            0 <= e < dependency_edges_upto(rs, n).len() && #[trigger] dependency_edges_upto(rs, n)[e]
                == dependency_edge(rs, i, rs[i].deps()[k]@),
    decreases n,
{
    let prev = dependency_edges_upto(rs, n - 1);
    let own = rs[n - 1].deps().map_values(|d: String| dependency_edge(rs, n - 1, d@));
    assert(dependency_edges_upto(rs, n) == prev + own);
    if i == n - 1 {
        let e = prev.len() + k;
        assert((prev + own)[e] == own[k]);
    } else {
        lemma_dependency_edge_listed(rs, i, k, n - 1);
        let e = choose|e: int|
            0 <= e < prev.len() && #[trigger] prev[e] == dependency_edge(rs, i, rs[i].deps()[k]@);
        assert((prev + own)[e] == prev[e]);
    }
}

/// In `first`, the recipe that dependency `k` of recipe `i` names stands before
/// recipe `i` (each as its last declaration under its name).
pub open spec fn dependency_first(rs: Seq<Recipe>, first: Seq<usize>, i: int, k: int) -> bool {
    let d = lookup(rs, rs[i].deps()[k]@)->Some_0;
    let t = lookup(rs, rs[i].name@)->Some_0;
    &&& 0 <= position(first, d) < position(first, t) < first.len()
    &&& first[position(first, d)] == d
    &&& first[position(first, t)] == t
}

/// A build order of the graph of an acyclic configuration whose dependencies all
/// resolve: the graph builds; the order names every recipe exactly once; and it
/// comes from a first-pass order in which each dependency stands before each
/// recipe that names it.
pub proof fn law_acyclic_config_build_order(dag: Dag, names: Seq<String>)
    requires
        dag.wf(),
        all_resolved(dag.recipes@),
        !has_cycle(dependency_edges(dag.recipes@)),
        dag.edges() == dependency_edges(dag.recipes@),
        is_build_order(dag, names),
    ensures
        dag_builds(dag.recipes@),
        exists|order: Seq<usize>|
            {
                &&& order.len() == dag.recipes@.len()
                &&& order.no_duplicates()
                &&& forall|v: usize| (v as int) < dag.recipes@.len() ==> order.contains(v)
                &&& names_in_order(dag.recipes@, order, names)
            },
        exists|first: Seq<usize>|
            {
                &&& is_topological_order(dag.recipes@.len(), dag.edges(), first)
                &&& forall|i: int, k: int|
                    0 <= i < dag.recipes@.len() && 0 <= k < dag.recipes@[i].deps().len()
                        ==> #[trigger] dependency_first(dag.recipes@, first, i, k)
            },
{
    broadcast use vstd::seq_lib::group_to_multiset_ensures, vstd::multiset::group_multiset_axioms;

    let rs = dag.recipes@;
    let n = rs.len();
    let (first, order) = choose|first: Seq<usize>, order: Seq<usize>|
        is_topological_order(n, dag.edges(), first) && is_stable_sort(
            first,
            order,
            incoming_weights(dag.edges(), n),
        ) && names_in_order(rs, order, names);
    // the stable sort keeps the nodes, each once
    first.lemma_multiset_has_no_duplicates();
    assert forall|x: usize| order.to_multiset().contains(x) implies order.to_multiset().count(x)
        == 1 by {}
    order.lemma_multiset_has_no_duplicates_conv();
    assert forall|v: usize| (v as int) < n implies order.contains(v) by {
        assert(first.contains(v));
        assert(first.to_multiset().count(v) > 0);
    }
    assert(order.len() == order.to_multiset().len());
    // each dependency edge is ordered
    assert forall|i: int, k: int|
        0 <= i < n && 0 <= k < rs[i].deps().len() implies #[trigger] dependency_first(
        rs,
        first,
        i,
        k,
    ) by {
        lemma_dependency_edge_listed(rs, i, k, n as int);
        let edges = dependency_edges(rs);
        let e = choose|e: int|
            0 <= e < edges.len() && #[trigger] edges[e] == dependency_edge(rs, i, rs[i].deps()[k]@);
        lemma_lookup_declared(rs, i);
        assert(lookup(rs, rs[i].deps()[k]@) is Some);
        lemma_lookup_bounds(rs, rs[i].deps()[k]@);
        let d = lookup(rs, rs[i].deps()[k]@)->Some_0;
        let t = lookup(rs, rs[i].name@)->Some_0;
        assert(edges[e].0 as int == d);
        assert(edges[e].1 as int == t);
        assert(first.contains(edges[e].0));
        assert(first.contains(edges[e].1));
        let pd = position(first, d);
        let pt = position(first, t);
        assert(first[pd] == edges[e].0 && first[pt] == edges[e].1);
    }
}

/// A configuration whose dependency graph has a cycle (a recipe naming itself
/// included) never builds, and its graph has no build order.
pub proof fn law_cyclic_config_fails(dag: Dag, names: Seq<String>)
    requires
        dag.wf(),
        has_cycle(dag.edges()),
    ensures
        !is_build_order(dag, names),
        dag.edges() == dependency_edges(dag.recipes@) ==> !dag_builds(dag.recipes@),
{
    if is_build_order(dag, names) {
        let (first, order) = choose|first: Seq<usize>, order: Seq<usize>|
            is_topological_order(dag.recipes@.len(), dag.edges(), first) && is_stable_sort(
                first,
                order,
                incoming_weights(dag.edges(), dag.recipes@.len()),
            ) && names_in_order(dag.recipes@, order, names);
        lemma_cycle_has_no_order(dag.recipes@.len(), dag.edges(), first);
    }
}

/// A recipe that names itself as a dependency closes a cycle.
pub proof fn law_self_reference_is_cycle(rs: Seq<Recipe>, i: int, k: int)
    requires
        0 <= i < rs.len(),
        0 <= k < rs[i].deps().len(),
        rs[i].deps()[k]@ == rs[i].name@,
        rs.len() <= MAX_GRAPH_ITEMS,
    ensures
        has_cycle(dependency_edges(rs)),
        !dag_builds(rs),
{
    lemma_dependency_edge_listed(rs, i, k, rs.len() as int);
    lemma_lookup_declared(rs, i);
    let edges = dependency_edges(rs);
    let t = lookup(rs, rs[i].name@)->Some_0;
    let p = seq![t, t];
    let e = choose|e: int|
        0 <= e < edges.len() && #[trigger] edges[e] == dependency_edge(rs, i, rs[i].deps()[k]@);
    assert(edges[e].0 as int == t && edges[e].1 as int == t);
    assert(has_edge(edges, p[0], p[1]));
    assert(is_walk(edges, p));
}

/// A configuration with a dependency that names no recipe never builds; its
/// first such dependency, in declaration order, is well defined.
pub proof fn law_undeclared_dependency_fails(rs: Seq<Recipe>, i: int, k: int)
    requires
        0 <= i < rs.len(),
        0 <= k < rs[i].deps().len(),
        lookup(rs, rs[i].deps()[k]@) is None,
    ensures
        !all_resolved(rs),
        !dag_builds(rs),
        exists|i1: int, k1: int| is_first_missing(rs, i1, k1),
        forall|i1: int, k1: int, i2: int, k2: int|
            is_first_missing(rs, i1, k1) && is_first_missing(rs, i2, k2) ==> i1 == i2 && k1 == k2,
{
    lemma_first_missing_exists(rs, i, k);
    assert forall|i1: int, k1: int, i2: int, k2: int|
        is_first_missing(rs, i1, k1) && is_first_missing(rs, i2, k2) implies i1 == i2 && k1
        == k2 by {
        if i1 < i2 {
            assert(lookup(rs, rs[i1].deps()[k1]@) is Some);
        } else if i2 < i1 {
            assert(lookup(rs, rs[i2].deps()[k2]@) is Some);
        } else if k1 < k2 {
            assert(lookup(rs, rs[i2].deps()[k1]@) is Some);
        } else if k2 < k1 {
            assert(lookup(rs, rs[i1].deps()[k2]@) is Some);
        }
    }
}

proof fn lemma_first_missing_exists(rs: Seq<Recipe>, i: int, k: int)
    requires
        0 <= i < rs.len(),
        0 <= k < rs[i].deps().len(),
        lookup(rs, rs[i].deps()[k]@) is None,
    ensures
        exists|i1: int, k1: int| is_first_missing(rs, i1, k1),
    decreases i, k,
{
    if !resolved_upto(rs, i) {
        let (i1, k1) = choose|i1: int, k1: int|
            0 <= i1 < i && 0 <= k1 < rs[i1].deps().len() && !(lookup(
                rs,
                rs[i1].deps()[k1]@,
            ) is Some);
        lemma_first_missing_exists(rs, i1, k1);
    } else if exists|j: int| 0 <= j < k && !(lookup(rs, rs[i].deps()[j]@) is Some) {
        let j = choose|j: int| 0 <= j < k && !(lookup(rs, rs[i].deps()[j]@) is Some);
        lemma_first_missing_exists(rs, i, j);
    } else {
        assert(is_first_missing(rs, i, k));
    }
}

/// The re-sort by incoming weight keeps every edge whose source weighs no more
/// than its target: in a build order the source comes first. (An edge whose
/// source weighs more may come out reversed.)
pub proof fn law_build_order_keeps_light_edges(dag: Dag, names: Seq<String>, e: int)
    requires
        dag.wf(),
        is_build_order(dag, names),
        0 <= e < dag.edges().len(),
        incoming_weight(dag.edges(), dag.edges()[e].0 as int) <= incoming_weight(
            dag.edges(),
            dag.edges()[e].1 as int,
        ),
    ensures
        exists|order: Seq<usize>, a: int, b: int|
            #[trigger] names_in_order(dag.recipes@, order, names) && 0 <= a < b < order.len() && #[trigger] order[a]
                == dag.edges()[e].0 && #[trigger] order[b] == dag.edges()[e].1,
{
    broadcast use vstd::seq_lib::group_to_multiset_ensures;

    let n = dag.recipes@.len();
    let edges = dag.edges();
    let keys = incoming_weights(edges, n);
    let (first, order) = choose|first: Seq<usize>, order: Seq<usize>|
        is_topological_order(n, edges, first) && is_stable_sort(first, order, keys) && names_in_order(
            dag.recipes@,
            order,
            names,
        );
    let u = edges[e].0;
    let v = edges[e].1;
    assert(first.contains(u) && first.contains(v));
    let i = choose|i: int| 0 <= i < first.len() && first[i] == u;
    let j = choose|j: int| 0 <= j < first.len() && first[j] == v;
    assert(i < j);
    assert(first.to_multiset().count(u) > 0 && first.to_multiset().count(v) > 0);
    assert(order.contains(u) && order.contains(v));
    let a = choose|a: int| 0 <= a < order.len() && order[a] == u;
    let b = choose|b: int| 0 <= b < order.len() && order[b] == v;
    assert(keys[u as int] == incoming_weight(edges, u as int));
    assert(keys[v as int] == incoming_weight(edges, v as int));
    if b < a {
        assert(keys[order[b] as int] <= keys[order[a] as int]);
        lemma_stable_sort_keeps_ties(first, order, keys, i, j);
        let (a2, b2) = choose|a2: int, b2: int|
            0 <= a2 < b2 < order.len() && order[a2] == first[i] && order[b2] == first[j];
        assert(names_in_order(dag.recipes@, order, names) && order[a2] == u && order[b2] == v);
    } else {
        assert(a != b);
        assert(names_in_order(dag.recipes@, order, names) && order[a] == u && order[b] == v);
    }
}

} // verus!
