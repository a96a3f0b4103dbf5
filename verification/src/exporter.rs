//! What a solution report lists: the vehicles used and the clusters and
//! subgroups that the routes visit.
use crate::instance::{Instance, Metric};
use crate::search::parents_in_range;
use std::collections::HashSet;
use vstd::prelude::*;

verus! {

broadcast use vstd::std_specs::hash::group_hash_axioms;

/// The node sequence of a vehicle's route.
pub struct RoutePath {
    pub vehicle_id: usize,
    pub path: Vec<usize>,
}

/// The plot mode of a metric.
pub open spec fn mode_text(metric: Metric) -> Seq<char> {
    match metric {
        Metric::Euc2d | Metric::Man2d => "2d"@,
        Metric::Euc3d | Metric::Man3d => "3d"@,
    }
}

/// The plot mode of a metric: planar or spatial.
pub fn get_mode(metric: Metric) -> (r: String)
    ensures
        r@ == mode_text(metric),
{
    match metric {
        Metric::Euc2d | Metric::Man2d => String::from_str("2d"),
        Metric::Euc3d | Metric::Man3d => String::from_str("3d"),
    }
}

/// The vehicles whose routes visit a node besides their two ends.
pub open spec fn used_vehicles(routes: Seq<RoutePath>) -> Set<usize> {
    Set::new(
        |v: usize| exists|k: int| 0 <= k < routes.len() && #[trigger] routes[k].vehicle_id == v && routes[k].path@.len() > 2,
    )
}

/// Whether node `n` lies on some route.
pub open spec fn on_some_route(routes: Seq<RoutePath>, n: usize) -> bool {
    exists|k: int, p: int| 0 <= k < routes.len() && 0 <= p < routes[k].path@.len() && #[trigger] routes[k].path@[p] == n
}

/// The subgroups that hold a node of some route.
pub open spec fn visited_subgroups(instance: Instance, routes: Seq<RoutePath>) -> Set<usize> {
    Set::new(
        |sg: usize|
            exists|n: usize|
                on_some_route(routes, n) && #[trigger] instance.nodes@[n as int].parent_subgroup_ids@.contains(sg),
    )
}

/// The clusters of the subgroups that hold a node of some route.
pub open spec fn visited_clusters(instance: Instance, routes: Seq<RoutePath>) -> Set<usize> {
    Set::new(
        |c: usize|
            exists|sg: usize|
                visited_subgroups(instance, routes).contains(sg) && #[trigger] instance.subgroups@[sg as int].parent_cluster_id == c,
    )
}

/// Every route node is a node of the instance.
pub open spec fn routes_in_range(instance: Instance, routes: Seq<RoutePath>) -> bool {
    forall|k: int, p: int|
        0 <= k < routes.len() && 0 <= p < routes[k].path@.len() ==> #[trigger] routes[k].path@[p] < instance.nodes@.len()
}

/// The vehicles that visit a node besides the ends of their route, each once.
pub fn get_vehicles_used(routes: &[RoutePath]) -> (r: Vec<usize>)
    ensures
        r@.to_set() == used_vehicles(routes@),
        r@.no_duplicates(),
{
    let mut seen: HashSet<usize> = HashSet::new();
    let mut out: Vec<usize> = Vec::new();
    let mut k: usize = 0;
    while k < routes.len()
        invariant
            k <= routes@.len(),
            out@.to_set() == seen@,
            out@.no_duplicates(),
            seen@ == Set::new(
                |v: usize| exists|j: int| 0 <= j < k && #[trigger] routes@[j].vehicle_id == v && routes@[j].path@.len() > 2,
            ),
        decreases routes@.len() - k,
    {
        let ghost old_seen = seen@;
        let route = &routes[k];
        if route.path.len() > 2 && !seen.contains(&route.vehicle_id) {
            seen.insert(route.vehicle_id);
            proof {
                out@.lemma_push_to_set_commute(route.vehicle_id);
            }
            out.push(route.vehicle_id);
        }
        proof {
            let next = Set::new(
                |v: usize| exists|j: int| 0 <= j < k + 1 && #[trigger] routes@[j].vehicle_id == v && routes@[j].path@.len() > 2,
            );
            assert(seen@ =~= next) by {
                assert forall|v: usize| next.contains(v) implies seen@.contains(v) by {
                    let j = choose|j: int| 0 <= j < k + 1 && #[trigger] routes@[j].vehicle_id == v && routes@[j].path@.len() > 2;
                    if j < k {
                        assert(old_seen.contains(v));
                    }
                }
                assert forall|v: usize| seen@.contains(v) implies next.contains(v) by {
                    if old_seen.contains(v) {
                        let j = choose|j: int| 0 <= j < k && #[trigger] routes@[j].vehicle_id == v && routes@[j].path@.len() > 2;
                        assert(0 <= j < k + 1);
                    } else {
                        assert(routes@[k as int].vehicle_id == v);
                    }
                }
            }
        }
        k = k + 1;
    }
    assert(seen@ =~= used_vehicles(routes@));
    out
}

/// Adds `x` to the ids collected so far, unless it is among them.
fn collect_id(seen: &mut HashSet<usize>, out: &mut Vec<usize>, x: usize)
    requires
        old(out)@.to_set() == old(seen)@,
        old(out)@.no_duplicates(),
    ensures
        final(seen)@ == old(seen)@.insert(x),
        final(out)@.to_set() == final(seen)@,
        final(out)@.no_duplicates(),
{
    if !seen.contains(&x) {
        seen.insert(x);
        proof {
            out@.lemma_push_to_set_commute(x);
        }
        out.push(x);
    } else {
        assert(seen@.insert(x) =~= seen@);
    }
}

/// The subgroups that hold one of the nodes of `nodes`.
pub open spec fn subgroups_of_nodes(instance: Instance, nodes: Set<usize>) -> Set<usize> {
    Set::new(
        |sg: usize| exists|n: usize| nodes.contains(n) && #[trigger] instance.nodes@[n as int].parent_subgroup_ids@.contains(sg),
    )
}

/// The subgroups that hold a node of some route, each once.
pub fn get_subgroups_visited(instance: &Instance, routes: &[RoutePath]) -> (r: Vec<usize>)
    requires
        routes_in_range(*instance, routes@),
    ensures
        r@.to_set() == visited_subgroups(*instance, routes@),
        r@.no_duplicates(),
{
    let mut seen: HashSet<usize> = HashSet::new();
    let mut out: Vec<usize> = Vec::new();
    let ghost mut done: Set<usize> = Set::empty();
    proof {
        assert(subgroups_of_nodes(*instance, done) =~= Set::<usize>::empty());
        assert(out@.to_set() =~= seen@);
    }
    let mut k: usize = 0;
    while k < routes.len()
        invariant
            k <= routes@.len(),
            routes_in_range(*instance, routes@),
            out@.to_set() == seen@,
            out@.no_duplicates(),
            seen@ == subgroups_of_nodes(*instance, done),
            forall|n: usize| #[trigger] done.contains(n) ==> on_some_route(routes@, n),
            forall|j: int, q: int| 0 <= j < k && 0 <= q < routes@[j].path@.len() ==> done.contains(#[trigger] routes@[j].path@[q]),
        decreases routes@.len() - k,
    {
        let path = &routes[k].path;
        let mut p: usize = 0;
        while p < path.len()
            invariant
                k < routes@.len(),
                *path == routes@[k as int].path,
                p <= path@.len(),
                routes_in_range(*instance, routes@),
                out@.to_set() == seen@,
                out@.no_duplicates(),
                seen@ == subgroups_of_nodes(*instance, done),
                forall|n: usize| #[trigger] done.contains(n) ==> on_some_route(routes@, n),
                forall|j: int, q: int| 0 <= j < k && 0 <= q < routes@[j].path@.len() ==> done.contains(#[trigger] routes@[j].path@[q]),
                forall|q: int| 0 <= q < p ==> done.contains(#[trigger] path@[q]),
            decreases path@.len() - p,
        {
            let n = path[p];
            assert(n < instance.nodes@.len()) by {
                assert(routes@[k as int].path@[p as int] == n);
            }
            let parents = &instance.nodes[n].parent_subgroup_ids;
            let ghost before = seen@;
            let ghost full = vstd::std_specs::iter::IteratorSpec::remaining(&parents.iter()).unref();
            proof {
                assert(full.take(0) =~= Seq::<usize>::empty());
                assert(before + Seq::<usize>::empty().to_set() =~= before);
            }
            for sg_ref in it: parents.iter()
                invariant
                    it.seq().unref() == full,
                    full.to_set() == parents@,
                    out@.to_set() == seen@,
                    out@.no_duplicates(),
                    seen@ == before + full.take(it.index()).to_set(),
            {
                let ghost cur = seen@;
                assert(full[it.index()] == *sg_ref);
                collect_id(&mut seen, &mut out, *sg_ref);
                proof {
                    assert(full.take(it.index() + 1) =~= full.take(it.index()).push(*sg_ref));
                    full.take(it.index()).lemma_push_to_set_commute(*sg_ref);
                    assert(seen@ =~= before + full.take(it.index() + 1).to_set());
                }
            }
            proof {
                assert(full.take(full.len() as int) =~= full);
                let grown = done.insert(n);
                assert(seen@ =~= subgroups_of_nodes(*instance, grown)) by {
                    assert forall|sg: usize| #[trigger] subgroups_of_nodes(*instance, grown).contains(sg) implies seen@.contains(sg) by {
                        let w = choose|w: usize| grown.contains(w) && #[trigger] instance.nodes@[w as int].parent_subgroup_ids@.contains(sg);
                        if w != n {
                            assert(subgroups_of_nodes(*instance, done).contains(sg));
                        }
                    }
                    assert forall|sg: usize| seen@.contains(sg) implies #[trigger] subgroups_of_nodes(*instance, grown).contains(sg) by {
                        if before.contains(sg) {
                            let w = choose|w: usize| done.contains(w) && #[trigger] instance.nodes@[w as int].parent_subgroup_ids@.contains(sg);
                            assert(grown.contains(w));
                        } else {
                            assert(instance.nodes@[n as int].parent_subgroup_ids@.contains(sg));
                        }
                    }
                }
                assert(on_some_route(routes@, n)) by {
                    assert(routes@[k as int].path@[p as int] == n);
                }
                done = grown;
            }
            p = p + 1;
        }
        k = k + 1;
    }
    proof {
        assert(done =~= Set::new(|n: usize| on_some_route(routes@, n))) by {
            assert forall|n: usize| on_some_route(routes@, n) implies done.contains(n) by {
                let (j, q) = choose|j: int, q: int| 0 <= j < routes@.len() && 0 <= q < routes@[j].path@.len() && #[trigger] routes@[j].path@[q] == n;
            }
        }
        assert(seen@ =~= visited_subgroups(*instance, routes@)) by {
            assert forall|sg: usize| #[trigger] visited_subgroups(*instance, routes@).contains(sg) implies seen@.contains(sg) by {
                let w = choose|w: usize| on_some_route(routes@, w) && #[trigger] instance.nodes@[w as int].parent_subgroup_ids@.contains(sg);
                assert(done.contains(w));
            }
            assert forall|sg: usize| seen@.contains(sg) implies #[trigger] visited_subgroups(*instance, routes@).contains(sg) by {
                let w = choose|w: usize| done.contains(w) && #[trigger] instance.nodes@[w as int].parent_subgroup_ids@.contains(sg);
                assert(on_some_route(routes@, w));
            }
        }
    }
    out
}

/// The clusters of the subgroups that hold a node of some route, each once.
pub fn get_clusters_visited(instance: &Instance, routes: &[RoutePath]) -> (r: Vec<usize>)
    requires
        routes_in_range(*instance, routes@),
        parents_in_range(*instance),
    ensures
        r@.to_set() == visited_clusters(*instance, routes@),
        r@.no_duplicates(),
{
    let subgroups = get_subgroups_visited(instance, routes);
    let mut seen: HashSet<usize> = HashSet::new();
    let mut out: Vec<usize> = Vec::new();
    let mut i: usize = 0;
    proof {
        assert(out@.to_set() =~= seen@);
    }
    while i < subgroups.len()
        invariant
            i <= subgroups@.len(),
            subgroups@.to_set() == visited_subgroups(*instance, routes@),
            routes_in_range(*instance, routes@),
            parents_in_range(*instance),
            out@.to_set() == seen@,
            out@.no_duplicates(),
            seen@ == Set::new(
                |c: usize| exists|j: int| 0 <= j < i && #[trigger] instance.subgroups@[subgroups@[j] as int].parent_cluster_id == c,
            ),
        decreases subgroups@.len() - i,
    {
        let sg = subgroups[i];
        assert(subgroups@.to_set().contains(sg));
        proof {
            let n = choose|n: usize| on_some_route(routes@, n) && #[trigger] instance.nodes@[n as int].parent_subgroup_ids@.contains(sg);
            let (j, q) = choose|j: int, q: int| 0 <= j < routes@.len() && 0 <= q < routes@[j].path@.len() && #[trigger] routes@[j].path@[q] == n;
            assert(n < instance.nodes@.len());
        }
        let c = instance.subgroups[sg].parent_cluster_id;
        let ghost before = seen@;
        collect_id(&mut seen, &mut out, c);
        proof {
            let next = Set::new(
                |c2: usize| exists|j: int| 0 <= j < i + 1 && #[trigger] instance.subgroups@[subgroups@[j] as int].parent_cluster_id == c2,
            );
            assert(seen@ =~= next) by {
                assert forall|c2: usize| next.contains(c2) implies seen@.contains(c2) by {
                    let j = choose|j: int| 0 <= j < i + 1 && #[trigger] instance.subgroups@[subgroups@[j] as int].parent_cluster_id == c2;
                    if j < i {
                        assert(before.contains(c2));
                    }
                }
                assert forall|c2: usize| seen@.contains(c2) implies next.contains(c2) by {
                    if before.contains(c2) {
                        let j = choose|j: int| 0 <= j < i && #[trigger] instance.subgroups@[subgroups@[j] as int].parent_cluster_id == c2;
                        assert(0 <= j < i + 1);
                    } else {
                        assert(instance.subgroups@[subgroups@[i as int] as int].parent_cluster_id == c2);
                    }
                }
            }
        }
        i = i + 1;
    }
    proof {
        assert(seen@ =~= visited_clusters(*instance, routes@)) by {
            assert forall|c: usize| #[trigger] visited_clusters(*instance, routes@).contains(c) implies seen@.contains(c) by {
                let sg = choose|sg: usize| visited_subgroups(*instance, routes@).contains(sg) && #[trigger] instance.subgroups@[sg as int].parent_cluster_id == c;
                assert(subgroups@.to_set().contains(sg));
                let j = choose|j: int| 0 <= j < subgroups@.len() && subgroups@[j] == sg;
                assert(instance.subgroups@[subgroups@[j] as int].parent_cluster_id == c);
            }
            assert forall|c: usize| seen@.contains(c) implies #[trigger] visited_clusters(*instance, routes@).contains(c) by {
                let j = choose|j: int| 0 <= j < subgroups@.len() && #[trigger] instance.subgroups@[subgroups@[j] as int].parent_cluster_id == c;
                assert(subgroups@.to_set().contains(subgroups@[j]));
            }
        }
    }
    out
}

} // verus!
