//! Detection of disconnected subtours in an integral route, over the
//! undirected graph that the route's active arcs induce.
use vstd::prelude::*;

verus! {

/// `u` and `v` are joined by an active arc, in either direction.
pub open spec fn adjacent(edges: Seq<(usize, usize)>, u: usize, v: usize) -> bool {
    exists|k: int| 0 <= k < edges.len() && (#[trigger] edges[k] == (u, v) || edges[k] == (v, u))
}

/// `u` is an end of some active arc.
pub open spec fn has_edge(edges: Seq<(usize, usize)>, u: usize) -> bool {
    exists|k: int| 0 <= k < edges.len() && ((#[trigger] edges[k]).0 == u || edges[k].1 == u)
}

/// `p` is a nonempty walk along active arcs.
pub open spec fn is_walk(edges: Seq<(usize, usize)>, p: Seq<usize>) -> bool {
    &&& p.len() >= 1
    &&& forall|i: int| 0 <= i < p.len() - 1 ==> adjacent(edges, #[trigger] p[i], p[i + 1])
}

/// Some walk leads from `u` to `v`.
pub open spec fn reachable(edges: Seq<(usize, usize)>, u: usize, v: usize) -> bool {
    exists|p: Seq<usize>| #[trigger] is_walk(edges, p) && p[0] == u && p.last() == v
}

/// The nodes connected to `u`.
pub open spec fn component(edges: Seq<(usize, usize)>, u: usize) -> Set<usize> {
    Set::new(|v: usize| reachable(edges, u, v))
}

/// A set of nodes that no active arc leaves.
pub open spec fn closed_under(edges: Seq<(usize, usize)>, s: Set<usize>) -> bool {
    forall|x: usize, y: usize| s.contains(x) && #[trigger] adjacent(edges, x, y) ==> s.contains(y)
}

/// What `find_invalid_subtours` promises of one component it returns.
pub open spec fn is_invalid_subtour(
    edges: Seq<(usize, usize)>,
    start_node: usize,
    end_node: usize,
    tour: Seq<usize>,
) -> bool {
    &&& tour.len() > 0
    &&& tour.no_duplicates()
    &&& tour.to_set() == component(edges, tour[0])
    &&& has_edge(edges, tour[0])
    &&& forall|i: int| 0 <= i < tour.len() ==> tour[0] <= #[trigger] tour[i]
    &&& !tour.contains(start_node)
    &&& !tour.contains(end_node)
}

/// Number of `false` entries.
pub open spec fn count_unvisited(v: Seq<bool>) -> nat
    decreases v.len(),
{
    if v.len() == 0 {
        0
    } else {
        count_unvisited(v.drop_last()) + if v.last() {
            0nat
        } else {
            1nat
        }
    }
}

/// Marking an unvisited entry leaves one unvisited entry fewer.
pub proof fn lemma_count_unvisited_mark(v: Seq<bool>, i: int)
    requires
        0 <= i < v.len(),
        !v[i],
    ensures
        count_unvisited(v.update(i, true)) + 1 == count_unvisited(v),
    decreases v.len(),
{
    let w = v.update(i, true);
    if i < v.len() - 1 {
        assert(w.drop_last() =~= v.drop_last().update(i, true));
        lemma_count_unvisited_mark(v.drop_last(), i);
    } else {
        assert(w.drop_last() =~= v.drop_last());
    }
}

/// The adjacency lists that the arcs give, in arc order: arc `(a, b)` puts
/// `b` at the end of `a`'s list, then `a` at the end of `b`'s list.
pub open spec fn adjacency_lists(edges: Seq<(usize, usize)>, n: nat) -> Seq<Seq<usize>>
    decreases edges.len(),
{
    if edges.len() == 0 {
        Seq::new(n, |i: int| Seq::<usize>::empty())
    } else {
        let g = adjacency_lists(edges.drop_last(), n);
        let a = edges.last().0 as int;
        let b = edges.last().1 as int;
        let g1 = g.update(a, g[a].push(edges.last().1));
        g1.update(b, g1[b].push(edges.last().0))
    }
}

/// A depth-first walk with an explicit stack: the top node, when not yet
/// visited, is marked, added to the component, and its neighbours are
/// pushed in list order; a visited top node is dropped.
pub open spec fn dfs(adj: Seq<Seq<usize>>, visited: Seq<bool>, stack: Seq<usize>, comp: Seq<usize>) -> (
    Seq<bool>,
    Seq<usize>,
)
    decreases count_unvisited(visited), stack.len(),
{
    if stack.len() == 0 {
        (visited, comp)
    } else {
        let cur = stack.last();
        let rest = stack.drop_last();
        if cur < visited.len() && !visited[cur as int] {
            proof {
                lemma_count_unvisited_mark(visited, cur as int);
            }
            dfs(adj, visited.update(cur as int, true), rest + adj[cur as int], comp.push(cur))
        } else {
            dfs(adj, visited, rest, comp)
        }
    }
}

/// Scanning the nodes from `node` on: each unvisited node with arcs starts a
/// walk, and its component is kept when it holds neither end.
pub open spec fn scan_components(
    adj: Seq<Seq<usize>>,
    visited: Seq<bool>,
    node: nat,
    n: nat,
    start_node: usize,
    end_node: usize,
    tours: Seq<Seq<usize>>,
) -> Seq<Seq<usize>>
    decreases n - node,
{
    if node >= n {
        tours
    } else if node < visited.len() && !visited[node as int] && adj[node as int].len() > 0 {
        let r = dfs(adj, visited, seq![node as usize], seq![]);
        let kept = if !r.1.contains(start_node) && !r.1.contains(end_node) {
            tours.push(r.1)
        } else {
            tours
        };
        scan_components(adj, r.0, node + 1, n, start_node, end_node, kept)
    } else {
        scan_components(adj, visited, node + 1, n, start_node, end_node, tours)
    }
}

/// The subtours in the order the scan finds them, each in the order the
/// depth-first walk visits its nodes.
pub open spec fn dfs_subtours(edges: Seq<(usize, usize)>, n: nat, start_node: usize, end_node: usize) -> Seq<
    Seq<usize>,
> {
    scan_components(
        adjacency_lists(edges, n),
        Seq::new(n, |i: int| false),
        0,
        n,
        start_node,
        end_node,
        Seq::empty(),
    )
}

proof fn lemma_walk_push(edges: Seq<(usize, usize)>, p: Seq<usize>, y: usize)
    requires
        is_walk(edges, p),
        adjacent(edges, p.last(), y),
    ensures
        is_walk(edges, p.push(y)),
        p.push(y)[0] == p[0],
        p.push(y).last() == y,
{
    let q = p.push(y);
    assert forall|i: int| 0 <= i < q.len() - 1 implies adjacent(edges, #[trigger] q[i], q[i + 1]) by {
        if i < p.len() - 1 {
            assert(q[i] == p[i] && q[i + 1] == p[i + 1]);
        } else {
            assert(q[i] == p.last() && q[i + 1] == y);
        }
    }
}

/// Extending a walk to `x` by one arc reaches the arc's other end.
pub proof fn lemma_reachable_step(edges: Seq<(usize, usize)>, r: usize, x: usize, y: usize)
    requires
        reachable(edges, r, x),
        adjacent(edges, x, y),
    ensures
        reachable(edges, r, y),
{
    let p = choose|p: Seq<usize>| #[trigger] is_walk(edges, p) && p[0] == r && p.last() == x;
    lemma_walk_push(edges, p, y);
    assert(is_walk(edges, p.push(y)));
}

/// Every node reaches itself.
pub proof fn lemma_reachable_self(edges: Seq<(usize, usize)>, r: usize)
    ensures
        reachable(edges, r, r),
{
    let p = seq![r];
    assert(is_walk(edges, p));
}

proof fn lemma_walk_stays_in_closed(edges: Seq<(usize, usize)>, s: Set<usize>, p: Seq<usize>, i: int)
    requires
        is_walk(edges, p),
        closed_under(edges, s),
        s.contains(p[0]),
        0 <= i < p.len(),
    ensures
        s.contains(p[i]),
    decreases i,
{
    if i > 0 {
        lemma_walk_stays_in_closed(edges, s, p, i - 1);
        assert(adjacent(edges, p[i - 1], p[i]));
    }
}

/// A set that no arc leaves holds everything reachable from its members.
pub proof fn lemma_closed_contains_reachable(
    edges: Seq<(usize, usize)>,
    s: Set<usize>,
    u: usize,
    v: usize,
)
    requires
        closed_under(edges, s),
        s.contains(u),
        reachable(edges, u, v),
    ensures
        s.contains(v),
{
    let p = choose|p: Seq<usize>| #[trigger] is_walk(edges, p) && p[0] == u && p.last() == v;
    lemma_walk_stays_in_closed(edges, s, p, p.len() - 1);
}

/// Reachability is symmetric.
pub proof fn lemma_reachable_symmetric(edges: Seq<(usize, usize)>, u: usize, v: usize)
    requires
        reachable(edges, u, v),
    ensures
        reachable(edges, v, u),
{
    let p = choose|p: Seq<usize>| #[trigger] is_walk(edges, p) && p[0] == u && p.last() == v;
    let q = p.reverse();
    assert forall|i: int| 0 <= i < q.len() - 1 implies adjacent(edges, #[trigger] q[i], q[i + 1]) by {
        let j = p.len() - 2 - i;
        assert(q[i] == p[j + 1] && q[i + 1] == p[j]);
        assert(adjacent(edges, p[j], p[j + 1]));
        let k = choose|k: int|
            0 <= k < edges.len() && (#[trigger] edges[k] == (p[j], p[j + 1]) || edges[k] == (
                p[j + 1],
                p[j],
            ));
        assert(edges[k] == (q[i], q[i + 1]) || edges[k] == (q[i + 1], q[i]));
    }
    assert(is_walk(edges, q));
}

/// Reachability is transitive.
pub proof fn lemma_reachable_transitive(edges: Seq<(usize, usize)>, u: usize, v: usize, w: usize)
    requires
        reachable(edges, u, v),
        reachable(edges, v, w),
    ensures
        reachable(edges, u, w),
{
    let p = choose|p: Seq<usize>| #[trigger] is_walk(edges, p) && p[0] == u && p.last() == v;
    let q = choose|q: Seq<usize>| #[trigger] is_walk(edges, q) && q[0] == v && q.last() == w;
    let r = p + q.drop_first();
    assert forall|i: int| 0 <= i < r.len() - 1 implies adjacent(edges, #[trigger] r[i], r[i + 1]) by {
        if i < p.len() - 1 {
            assert(r[i] == p[i] && r[i + 1] == p[i + 1]);
        } else {
            let j = i - p.len() + 1;
            assert(r[i] == q[j] && r[i + 1] == q[j + 1]);
        }
    }
    assert(is_walk(edges, r));
    if q.len() == 1 {
        assert(r.last() == p.last());
    } else {
        assert(r.last() == q.last());
    }
}

/// Nodes in one component have the same component.
pub proof fn lemma_same_component(edges: Seq<(usize, usize)>, r: usize, x: usize)
    requires
        reachable(edges, r, x),
    ensures
        component(edges, x) == component(edges, r),
{
    lemma_reachable_symmetric(edges, r, x);
    assert forall|v: usize| component(edges, x).contains(v) <==> component(edges, r).contains(v) by {
        if reachable(edges, x, v) {
            lemma_reachable_transitive(edges, r, x, v);
        }
        if reachable(edges, r, v) {
            lemma_reachable_transitive(edges, x, r, v);
        }
    }
    assert(component(edges, x) =~= component(edges, r));
}

proof fn lemma_reachable_other_has_edge(edges: Seq<(usize, usize)>, r: usize, x: usize)
    requires
        reachable(edges, r, x),
        x != r,
    ensures
        has_edge(edges, x),
{
    let p = choose|p: Seq<usize>| #[trigger] is_walk(edges, p) && p[0] == r && p.last() == x;
    let i = p.len() - 2;
    assert(adjacent(edges, p[i], p[i + 1]));
    let k = choose|k: int|
        0 <= k < edges.len() && (#[trigger] edges[k] == (p[i], p[i + 1]) || edges[k] == (
            p[i + 1],
            p[i],
        ));
    assert(edges[k].0 == x || edges[k].1 == x);
}

fn vec_contains(v: &Vec<usize>, x: usize) -> (r: bool)
    ensures
        r == v@.contains(x),
{
    let mut i: usize = 0;
    while i < v.len()
        invariant
            i <= v@.len(),
            forall|j: int| 0 <= j < i ==> v@[j] != x,
        decreases v@.len() - i,
    {
        if v[i] == x {
            return true;
        }
        i = i + 1;
    }
    false
}

/// The undirected adjacency lists of the arcs, one list per node.
fn build_adjacency(num_nodes: usize, edges: &[(usize, usize)]) -> (graph: Vec<Vec<usize>>)
    requires
        forall|k: int| 0 <= k < edges@.len() ==> (#[trigger] edges@[k]).0 < num_nodes && edges@[k].1 < num_nodes,
    ensures
        graph@.len() == num_nodes,
        adjacency_lists(edges@, num_nodes as nat).len() == num_nodes,
        forall|u: int| 0 <= u < num_nodes ==> (#[trigger] graph@[u])@ == adjacency_lists(edges@, num_nodes as nat)[u],
        forall|u: int, v: usize|
            0 <= u < num_nodes ==> (#[trigger] graph@[u]@.contains(v) <==> adjacent(edges@, u as usize, v)),
        forall|u: int, j: int|
            0 <= u < num_nodes && 0 <= j < graph@[u]@.len() ==> #[trigger] graph@[u]@[j] < num_nodes,
{
    let mut graph: Vec<Vec<usize>> = Vec::new();
    let mut i: usize = 0;
    while i < num_nodes
        invariant
            i <= num_nodes,
            graph@.len() == i,
            forall|u: int| 0 <= u < i ==> (#[trigger] graph@[u])@ == Seq::<usize>::empty(),
        decreases num_nodes - i,
    {
        graph.push(Vec::new());
        i = i + 1;
    }
    let mut k: usize = 0;
    proof {
        assert(edges@.subrange(0, 0) =~= Seq::<(usize, usize)>::empty());
    }
    while k < edges.len()
        invariant
            k <= edges@.len(),
            graph@.len() == num_nodes,
            forall|k: int| 0 <= k < edges@.len() ==> (#[trigger] edges@[k]).0 < num_nodes && edges@[k].1 < num_nodes,
            adjacency_lists(edges@.subrange(0, k as int), num_nodes as nat).len() == num_nodes,
            forall|u: int| 0 <= u < num_nodes ==> (#[trigger] graph@[u])@ == adjacency_lists(edges@.subrange(0, k as int), num_nodes as nat)[u],
            forall|u: int, v: usize|
                0 <= u < num_nodes ==> (#[trigger] graph@[u]@.contains(v) <==> adjacent(
                    edges@.subrange(0, k as int),
                    u as usize,
                    v,
                )),
            forall|u: int, j: int|
                0 <= u < num_nodes && 0 <= j < graph@[u]@.len() ==> #[trigger] graph@[u]@[j] < num_nodes,
        decreases edges@.len() - k,
    {
        let (a, b) = edges[k];
        let ghost old_graph = graph@;
        graph[a].push(b);
        graph[b].push(a);
        let ghost prev = edges@.subrange(0, k as int);
        let ghost next = edges@.subrange(0, k + 1);
        proof {
            assert(next.drop_last() =~= prev);
            assert(next.last() == (a, b));
            let g = adjacency_lists(prev, num_nodes as nat);
            assert forall|u: int| 0 <= u < num_nodes implies (#[trigger] graph@[u])@ == adjacency_lists(next, num_nodes as nat)[u] by {
                let g1 = g.update(a as int, g[a as int].push(b));
                if u == a as int && u == b as int {
                    assert(graph@[u]@ =~= old_graph[u]@.push(b).push(a));
                } else if u == a as int {
                    assert(graph@[u]@ =~= old_graph[u]@.push(b));
                } else if u == b as int {
                    assert(graph@[u]@ =~= old_graph[u]@.push(a));
                } else {
                    assert(graph@[u] == old_graph[u]);
                }
            }
        }
        assert forall|u: int, v: usize|
            0 <= u < num_nodes implies (#[trigger] graph@[u]@.contains(v) <==> adjacent(
                next,
                u as usize,
                v,
            )) by {
            if graph@[u]@.contains(v) {
                if old_graph[u]@.contains(v) {
                    let kk = choose|kk: int|
                        0 <= kk < prev.len() && (#[trigger] prev[kk] == (u as usize, v) || prev[kk]
                            == (v, u as usize));
                    assert(next[kk] == prev[kk]);
                } else {
                    assert(next[k as int] == (a, b));
                }
            }
            if adjacent(next, u as usize, v) {
                let kk = choose|kk: int|
                    0 <= kk < next.len() && (#[trigger] next[kk] == (u as usize, v) || next[kk] == (
                        v,
                        u as usize,
                    ));
                if kk < k {
                    assert(prev[kk] == next[kk]);
                    assert(old_graph[u]@.contains(v));
                    let j = choose|j: int| 0 <= j < old_graph[u]@.len() && old_graph[u]@[j] == v;
                    assert(graph@[u]@[j] == v);
                } else {
                    assert(next[kk] == (a, b));
                    if u == a as int && v == b {
                        let j = old_graph[u]@.len() as int;
                        assert(graph@[u]@[j] == v);
                    } else {
                        assert(u == b as int && v == a);
                        let j = graph@[u]@.len() - 1;
                        assert(graph@[u]@[j] == v);
                    }
                }
            }
        }
        k = k + 1;
    }
    assert(edges@.subrange(0, edges@.len() as int) =~= edges@);
    graph
}

/// The connected components of the active arcs (nodes without arcs left
/// out) that contain neither the route's start nor its end node, each as
/// the list of its nodes in the order a stack-based depth-first walk from
/// its smallest node visits them, in increasing order of that node.
pub fn find_invalid_subtours(
    num_nodes: usize,
    start_node: usize,
    end_node: usize,
    active_edges: &[(usize, usize)],
) -> (tours: Vec<Vec<usize>>)
    requires
        forall|k: int|
            0 <= k < active_edges@.len() ==> (#[trigger] active_edges@[k]).0 < num_nodes
                && active_edges@[k].1 < num_nodes,
    ensures
        forall|c: int|
            0 <= c < tours@.len() ==> is_invalid_subtour(
                active_edges@,
                start_node,
                end_node,
                #[trigger] tours@[c]@,
            ),
        forall|a: int, b: int| 0 <= a < b < tours@.len() ==> tours@[a]@[0] < tours@[b]@[0],
        forall|v: usize|
            #![trigger component(active_edges@, v)]
            has_edge(active_edges@, v) && !component(active_edges@, v).contains(start_node)
                && !component(active_edges@, v).contains(end_node) ==> exists|c: int|
                0 <= c < tours@.len() && (#[trigger] tours@[c]@).contains(v),
        tours@.map_values(|t: Vec<usize>| t@) == dfs_subtours(active_edges@, num_nodes as nat, start_node, end_node),
{
    let ghost edges = active_edges@;
    let graph = build_adjacency(num_nodes, active_edges);
    let ghost adj = adjacency_lists(edges, num_nodes as nat);
    let mut visited: Vec<bool> = Vec::new();
    let mut i: usize = 0;
    while i < num_nodes
        invariant
            i <= num_nodes,
            visited@.len() == i,
            forall|x: int| 0 <= x < i ==> !visited@[x],
        decreases num_nodes - i,
    {
        visited.push(false);
        i = i + 1;
    }
    let mut bad_tours: Vec<Vec<usize>> = Vec::new();
    proof {
        assert(visited@ =~= Seq::new(num_nodes as nat, |i: int| false));
        assert(bad_tours@.map_values(|t: Vec<usize>| t@) =~= Seq::<Seq<usize>>::empty());
    }
    let mut node: usize = 0;
    while node < num_nodes
        invariant
            node <= num_nodes,
            edges == active_edges@,
            forall|k: int| 0 <= k < edges.len() ==> (#[trigger] edges[k]).0 < num_nodes && edges[k].1 < num_nodes,
            graph@.len() == num_nodes,
            forall|u: int, v: usize|
                0 <= u < num_nodes ==> (#[trigger] graph@[u]@.contains(v) <==> adjacent(edges, u as usize, v)),
            forall|u: int, j: int|
                0 <= u < num_nodes && 0 <= j < graph@[u]@.len() ==> #[trigger] graph@[u]@[j] < num_nodes,
            visited@.len() == num_nodes,
            adj == adjacency_lists(edges, num_nodes as nat),
            adj.len() == num_nodes,
            forall|u: int| 0 <= u < num_nodes ==> (#[trigger] graph@[u])@ == adj[u],
            scan_components(adj, visited@, node as nat, num_nodes as nat, start_node, end_node, bad_tours@.map_values(|t: Vec<usize>| t@))
                == dfs_subtours(edges, num_nodes as nat, start_node, end_node),
            // the visited nodes form whole components
            closed_under(edges, Set::new(|x: usize| x < num_nodes && visited@[x as int])),
            // every node before `node` that has an arc is visited
            forall|v: usize| v < node && has_edge(edges, v) ==> #[trigger] visited@[v as int],
            // a visited node lies in a returned tour or shares its component with an end
            forall|x: usize|
                x < num_nodes && #[trigger] visited@[x as int] ==> (component(edges, x).contains(
                    start_node,
                ) || component(edges, x).contains(end_node) || exists|c: int|
                    0 <= c < bad_tours@.len() && (#[trigger] bad_tours@[c]@).contains(x)),
            forall|c: int|
                0 <= c < bad_tours@.len() ==> is_invalid_subtour(
                    edges,
                    start_node,
                    end_node,
                    #[trigger] bad_tours@[c]@,
                ),
            forall|c: int| 0 <= c < bad_tours@.len() ==> (#[trigger] bad_tours@[c]@)[0] < node,
            forall|a: int, b: int| 0 <= a < b < bad_tours@.len() ==> bad_tours@[a]@[0] < bad_tours@[b]@[0],
        decreases num_nodes - node,
    {
        if !visited[node] && graph[node].len() > 0 {
            proof {
                let y = graph@[node as int]@[0];
                assert(graph@[node as int]@.contains(y));
                assert(adjacent(edges, node, y));
                let k = choose|k: int|
                    0 <= k < edges.len() && (#[trigger] edges[k] == (node, y) || edges[k] == (y, node));
                assert(has_edge(edges, node));
                lemma_reachable_self(edges, node);
            }
            let ghost prior = visited@;
            let ghost prior_set = Set::new(|x: usize| x < num_nodes && prior[x as int]);
            let mut comp: Vec<usize> = Vec::new();
            let mut stack: Vec<usize> = Vec::new();
            stack.push(node);
            proof {
                assert(stack@ =~= seq![node]);
                assert(comp@ =~= Seq::<usize>::empty());
            }
            while stack.len() > 0
                invariant
                    node < num_nodes,
                    edges == active_edges@,
                    forall|k: int| 0 <= k < edges.len() ==> (#[trigger] edges[k]).0 < num_nodes && edges[k].1 < num_nodes,
                    graph@.len() == num_nodes,
                    forall|u: int, v: usize|
                        0 <= u < num_nodes ==> (#[trigger] graph@[u]@.contains(v) <==> adjacent(edges, u as usize, v)),
                    forall|u: int, j: int|
                        0 <= u < num_nodes && 0 <= j < graph@[u]@.len() ==> #[trigger] graph@[u]@[j] < num_nodes,
                    visited@.len() == num_nodes,
                    adj.len() == num_nodes,
                    forall|u: int| 0 <= u < num_nodes ==> (#[trigger] graph@[u])@ == adj[u],
                    dfs(adj, visited@, stack@, comp@) == dfs(adj, prior, seq![node], Seq::<usize>::empty()),
                    prior.len() == num_nodes,
                    !prior[node as int],
                    closed_under(edges, prior_set),
                    prior_set == Set::new(|x: usize| x < num_nodes && prior[x as int]),
                    forall|x: usize|
                        x < num_nodes ==> (#[trigger] visited@[x as int] <==> (prior[x as int] || comp@.contains(x))),
                    forall|x: usize| #[trigger] comp@.contains(x) ==> x < num_nodes && !prior[x as int],
                    comp@.no_duplicates(),
                    forall|x: usize| #[trigger] comp@.contains(x) ==> reachable(edges, node, x),
                    forall|j: int| 0 <= j < stack@.len() ==> #[trigger] stack@[j] < num_nodes && reachable(edges, node, stack@[j]),
                    comp@.len() == 0 ==> stack@.len() == 1 && stack@[0] == node,
                    comp@.len() > 0 ==> comp@[0] == node,
                    forall|x: usize, y: usize|
                        #[trigger] comp@.contains(x) && #[trigger] adjacent(edges, x, y) ==> (comp@.contains(y)
                            || stack@.contains(y)),
                decreases count_unvisited(visited@), stack@.len(),
            {
                let ghost pre_stack = stack@;
                let current = stack.pop().unwrap();
                assert(pre_stack == stack@.push(current));
                if !visited[current] {
                    proof {
                        lemma_count_unvisited_mark(visited@, current as int);
                    }
                    let ghost old_visited = visited@;
                    visited.set(current, true);
                    let ghost old_comp = comp@;
                    comp.push(current);
                    let nb = &graph[current];
                    let mut j: usize = 0;
                    let ghost base_stack = stack@;
                    while j < nb.len()
                        invariant
                            j <= nb@.len(),
                            nb@ == graph@[current as int]@,
                            current < num_nodes,
                            forall|u: int, jj: int|
                                0 <= u < num_nodes && 0 <= jj < graph@[u]@.len() ==> #[trigger] graph@[u]@[jj] < num_nodes,
                            forall|u: int, v: usize|
                                0 <= u < num_nodes ==> (#[trigger] graph@[u]@.contains(v) <==> adjacent(edges, u as usize, v)),
                            reachable(edges, node, current),
                            stack@.len() == base_stack.len() + j,
                            forall|jj: int| 0 <= jj < base_stack.len() ==> stack@[jj] == base_stack[jj],
                            forall|jj: int| 0 <= jj < j ==> stack@[base_stack.len() + jj] == nb@[jj],
                            forall|jj: int| 0 <= jj < base_stack.len() ==> #[trigger] base_stack[jj] < num_nodes && reachable(edges, node, base_stack[jj]),
                            forall|jj: int| 0 <= jj < stack@.len() ==> #[trigger] stack@[jj] < num_nodes && reachable(edges, node, stack@[jj]),
                        decreases nb@.len() - j,
                    {
                        let y = nb[j];
                        proof {
                            assert(graph@[current as int]@[j as int] == y);
                            assert(graph@[current as int]@.contains(y));
                            lemma_reachable_step(edges, node, current, y);
                        }
                        stack.push(y);
                        j = j + 1;
                    }
                    proof {
                        assert(stack@ =~= base_stack + adj[current as int]);
                        assert(pre_stack.drop_last() =~= base_stack);
                        assert(dfs(adj, old_visited, pre_stack, old_comp) == dfs(adj, visited@, stack@, comp@));
                        assert forall|x: usize, y: usize|
                            #[trigger] comp@.contains(x) && #[trigger] adjacent(edges, x, y) implies (
                            comp@.contains(y) || stack@.contains(y)) by {
                            if x == current {
                                assert(graph@[current as int]@.contains(y));
                                let jj = choose|jj: int| 0 <= jj < nb@.len() && nb@[jj] == y;
                                assert(stack@[base_stack.len() + jj] == y);
                            } else {
                                assert(old_comp.contains(x));
                                if old_comp.contains(y) {
                                    let jj = choose|jj: int| 0 <= jj < old_comp.len() && old_comp[jj] == y;
                                    assert(comp@[jj] == y);
                                } else {
                                    assert(pre_stack.contains(y));
                                    let jj = choose|jj: int| 0 <= jj < pre_stack.len() && pre_stack[jj] == y;
                                    if jj < pre_stack.len() - 1 {
                                        assert(base_stack[jj] == y);
                                        assert(stack@[jj] == y);
                                    } else {
                                        assert(y == current);
                                        assert(comp@[comp@.len() - 1] == y);
                                    }
                                }
                            }
                        }
                        assert forall|x: usize| #[trigger] comp@.contains(x) implies x < num_nodes
                            && !prior[x as int] by {
                            if x != current {
                                assert(old_comp.contains(x));
                            }
                        }
                        assert(comp@.no_duplicates()) by {
                            assert(!old_comp.contains(current));
                        }
                        assert forall|x: usize| x < num_nodes implies (#[trigger] visited@[x as int]
                            <==> (prior[x as int] || comp@.contains(x))) by {
                            if x != current {
                                if old_comp.contains(x) {
                                    let jj = choose|jj: int| 0 <= jj < old_comp.len() && old_comp[jj] == x;
                                    assert(comp@[jj] == x);
                                }
                                if comp@.contains(x) {
                                    let jj = choose|jj: int| 0 <= jj < comp@.len() && comp@[jj] == x;
                                    assert(old_comp[jj] == x);
                                }
                            } else {
                                assert(comp@[comp@.len() - 1] == x);
                            }
                        }
                        assert forall|x: usize| #[trigger] comp@.contains(x) implies reachable(edges, node, x) by {
                            if x != current {
                                let jj = choose|jj: int| 0 <= jj < comp@.len() && comp@[jj] == x;
                                assert(old_comp[jj] == x);
                                assert(old_comp.contains(x));
                            } else {
                                assert(pre_stack[pre_stack.len() - 1] == current);
                                assert(reachable(edges, node, pre_stack[pre_stack.len() - 1]));
                            }
                        }
                    }
                } else {
                    proof {
                        assert(pre_stack.drop_last() =~= stack@);
                        assert(dfs(adj, visited@, pre_stack, comp@) == dfs(adj, visited@, stack@, comp@));
                        assert forall|x: usize, y: usize|
                            #[trigger] comp@.contains(x) && #[trigger] adjacent(edges, x, y) implies (
                            comp@.contains(y) || stack@.contains(y)) by {
                            if y == current {
                                if prior[y as int] {
                                    assert(prior_set.contains(y));
                                    assert(adjacent(edges, y, x)) by {
                                        let k = choose|k: int|
                                            0 <= k < edges.len() && (#[trigger] edges[k] == (x, y)
                                                || edges[k] == (y, x));
                                        assert(edges[k] == (y, x) || edges[k] == (x, y));
                                    }
                                    assert(prior_set.contains(x));
                                    assert(false);
                                }
                            } else {
                                if pre_stack.contains(y) {
                                    let jj = choose|jj: int| 0 <= jj < pre_stack.len() && pre_stack[jj] == y;
                                    assert(stack@[jj] == y);
                                }
                            }
                        }
                        if comp@.len() == 0 {
                            assert(current == node);
                            assert(false);
                        }
                    }
                }
            }
            // `comp` is a whole component
            let ghost comp_set = comp@.to_set();
            proof {
                assert(comp@.contains(node));
                assert(closed_under(edges, comp_set)) by {
                    assert forall|x: usize, y: usize|
                        comp_set.contains(x) && #[trigger] adjacent(edges, x, y) implies comp_set.contains(y) by {
                        assert(comp@.contains(x));
                    }
                }
                assert forall|v: usize| comp_set.contains(v) <==> component(edges, node).contains(v) by {
                    if reachable(edges, node, v) {
                        lemma_closed_contains_reachable(edges, comp_set, node, v);
                    }
                }
                assert(comp_set =~= component(edges, node));
                assert forall|i: int| 0 <= i < comp@.len() implies node <= #[trigger] comp@[i] by {
                    let x = comp@[i];
                    assert(comp@.contains(x));
                    if x < node {
                        lemma_reachable_other_has_edge(edges, node, x);
                        assert(visited@[x as int]);
                        assert(false);
                    }
                }
                assert(closed_under(edges, Set::new(|x: usize| x < num_nodes && visited@[x as int]))) by {
                    assert forall|x: usize, y: usize|
                        Set::new(|x: usize| x < num_nodes && visited@[x as int]).contains(x) && #[trigger] adjacent(edges, x, y)
                        implies Set::new(|x: usize| x < num_nodes && visited@[x as int]).contains(y) by {
                        let k = choose|k: int|
                            0 <= k < edges.len() && (#[trigger] edges[k] == (x, y) || edges[k] == (y, x));
                        assert(y < num_nodes);
                        if prior[x as int] {
                            assert(prior_set.contains(x));
                        } else {
                            assert(comp@.contains(x));
                            assert(comp_set.contains(y));
                        }
                    }
                }
            }
            let has_start = vec_contains(&comp, start_node);
            let has_end = vec_contains(&comp, end_node);
            let ghost old_tours = bad_tours@;
            let ghost comp_view = comp@;
            proof {
                assert(stack@.len() == 0);
                assert(dfs(adj, visited@, stack@, comp@) == (visited@, comp@));
                assert(graph@[node as int]@ == adj[node as int]);
            }
            if !has_start && !has_end {
                bad_tours.push(comp);
            }
            proof {
                let views_old = old_tours.map_values(|t: Vec<usize>| t@);
                let kept = if !comp_view.contains(start_node) && !comp_view.contains(end_node) {
                    views_old.push(comp_view)
                } else {
                    views_old
                };
                assert(bad_tours@.map_values(|t: Vec<usize>| t@) =~= kept);
                assert(scan_components(adj, prior, node as nat, num_nodes as nat, start_node, end_node, views_old)
                    == scan_components(adj, visited@, (node + 1) as nat, num_nodes as nat, start_node, end_node, kept));
            }
            proof {
                assert forall|x: usize|
                    x < num_nodes && #[trigger] visited@[x as int] implies (component(edges, x).contains(
                        start_node,
                    ) || component(edges, x).contains(end_node) || exists|c: int|
                        0 <= c < bad_tours@.len() && (#[trigger] bad_tours@[c]@).contains(x)) by {
                    if prior[x as int] {
                        if !(component(edges, x).contains(start_node) || component(edges, x).contains(end_node)) {
                            let c = choose|c: int| 0 <= c < old_tours.len() && (#[trigger] old_tours[c]@).contains(x);
                            assert(bad_tours@[c] == old_tours[c]);
                        }
                    } else {
                        assert(comp_set.contains(x));
                        lemma_same_component(edges, node, x);
                        if !has_start && !has_end {
                            let c = bad_tours@.len() - 1;
                            assert(bad_tours@[c]@.contains(x));
                        } else if has_start {
                            assert(comp_set.contains(start_node));
                        } else {
                            assert(comp_set.contains(end_node));
                        }
                    }
                }
            }
        } else {
            proof {
                assert(graph@[node as int]@ == adj[node as int]);
            }
        }
        proof {
            if has_edge(edges, node) {
                let k = choose|k: int| 0 <= k < edges.len() && ((#[trigger] edges[k]).0 == node || edges[k].1 == node);
                let other = if edges[k].0 == node { edges[k].1 } else { edges[k].0 };
                assert(adjacent(edges, node, other));
                assert(graph@[node as int]@.contains(other));
            }
        }
        node = node + 1;
    }
    proof {
        assert forall|v: usize|
            #![trigger component(active_edges@, v)]
            has_edge(active_edges@, v) && !component(active_edges@, v).contains(start_node)
                && !component(active_edges@, v).contains(end_node) implies exists|c: int|
                0 <= c < bad_tours@.len() && (#[trigger] bad_tours@[c]@).contains(v) by {
            let k = choose|k: int| 0 <= k < edges.len() && ((#[trigger] edges[k]).0 == v || edges[k].1 == v);
            assert(v < num_nodes);
            assert(visited@[v as int]);
        }
    }
    bad_tours
}

} // verus!
