//! Links each node to the subgroups that hold it and each subgroup to the
//! cluster that holds it.
use crate::instance::{item_views, references_in_range, ClusterView, Instance, SubgroupView};
use vstd::prelude::*;

verus! {

broadcast use {vstd::std_specs::hash::group_hash_axioms, vstd::seq_lib::group_seq_properties};

/// The ids of the subgroups among the first `upto` that list `node`.
pub open spec fn parent_subgroups(subgroups: Seq<SubgroupView>, upto: int, node: usize) -> Set<usize> {
    Set::new(
        |s: usize|
            exists|k: int|
                0 <= k < upto && #[trigger] subgroups[k].id == s && subgroups[k].node_ids.contains(node),
    )
}

/// The id of the last cluster that lists subgroup `sg`, or `default`.
pub open spec fn parent_cluster(clusters: Seq<ClusterView>, sg: usize, default: usize) -> usize
    decreases clusters.len(),
{
    if clusters.len() == 0 {
        default
    } else if clusters.last().subgroup_ids.contains(sg) {
        clusters.last().id
    } else {
        parent_cluster(clusters.drop_last(), sg, default)
    }
}

/// The cluster named for a subgroup is the last cluster that lists it, or
/// `default` when no cluster lists it.
pub proof fn lemma_parent_cluster_law(clusters: Seq<ClusterView>, sg: usize, default: usize)
    ensures
        (forall|k: int| 0 <= k < clusters.len() ==> !(#[trigger] clusters[k]).subgroup_ids.contains(sg))
            ==> parent_cluster(clusters, sg, default) == default,
        forall|k: int|
            0 <= k < clusters.len() && (#[trigger] clusters[k]).subgroup_ids.contains(sg) && (forall|k2: int|
                k < k2 < clusters.len() ==> !(#[trigger] clusters[k2]).subgroup_ids.contains(sg))
                ==> parent_cluster(clusters, sg, default) == clusters[k].id,
    decreases clusters.len(),
{
    if clusters.len() > 0 {
        let init = clusters.drop_last();
        lemma_parent_cluster_law(init, sg, default);
        assert forall|k: int| 0 <= k < init.len() implies #[trigger] init[k] == clusters[k] by {}
        let last = clusters.len() - 1;
        assert(clusters.last() == clusters[last]);
        assert forall|k: int|
            0 <= k < clusters.len() && (#[trigger] clusters[k]).subgroup_ids.contains(sg) && (forall|k2: int|
                k < k2 < clusters.len() ==> !(#[trigger] clusters[k2]).subgroup_ids.contains(sg))
                implies parent_cluster(clusters, sg, default) == clusters[k].id by {
            if k < last {
                assert(!clusters[last].subgroup_ids.contains(sg));
                assert(init[k] == clusters[k]);
                assert forall|k2: int| k < k2 < init.len() implies !(#[trigger] init[k2]).subgroup_ids.contains(sg) by {
                    assert(init[k2] == clusters[k2]);
                }
            }
        }
        if forall|k: int| 0 <= k < clusters.len() ==> !(#[trigger] clusters[k]).subgroup_ids.contains(sg) {
            assert(!clusters[last].subgroup_ids.contains(sg));
            assert forall|k: int| 0 <= k < init.len() implies !(#[trigger] init[k]).subgroup_ids.contains(sg) by {
                assert(init[k] == clusters[k]);
            }
        }
    }
}

proof fn lemma_push_contains(s: Seq<usize>, x: usize, y: usize)
    ensures
        s.push(x).contains(y) <==> (s.contains(y) || x == y),
{
    if s.push(x).contains(y) && x != y {
        let k = choose|k: int| 0 <= k < s.push(x).len() && s.push(x)[k] == y;
        assert(k < s.len());
        assert(s[k] == y);
    }
    if s.contains(y) {
        let k = choose|k: int| 0 <= k < s.len() && s[k] == y;
        assert(s.push(x)[k] == y);
    }
    if x == y {
        assert(s.push(x)[s.len() as int] == y);
    }
}

/// Adds each subgroup's id to the parents of the nodes it lists.
fn link_nodes_references(instance: &mut Instance)
    requires
        references_in_range(*old(instance)),
    ensures
        final(instance).name == old(instance).name,
        final(instance).metric == old(instance).metric,
        final(instance).subgroups == old(instance).subgroups,
        final(instance).clusters == old(instance).clusters,
        final(instance).vehicles == old(instance).vehicles,
        final(instance).nodes@.len() == old(instance).nodes@.len(),
        forall|i: int|
            0 <= i < final(instance).nodes@.len() ==> {
                let n = #[trigger] final(instance).nodes@[i];
                let o = old(instance).nodes@[i];
                &&& n.id == o.id
                &&& n.point == o.point
                &&& n.parent_subgroup_ids@ == o.parent_subgroup_ids@ + parent_subgroups(
                    item_views(old(instance).subgroups@),
                    old(instance).subgroups@.len() as int,
                    i as usize,
                )
            },
{
    let ghost old_nodes = instance.nodes@;
    let ghost groups = item_views(instance.subgroups@);
    let mut k: usize = 0;
    while k < instance.subgroups.len()
        invariant
            references_in_range(*instance),
            instance.name == old(instance).name,
            instance.metric == old(instance).metric,
            instance.subgroups == old(instance).subgroups,
            instance.clusters == old(instance).clusters,
            instance.vehicles == old(instance).vehicles,
            groups == item_views(instance.subgroups@),
            old_nodes == old(instance).nodes@,
            instance.nodes@.len() == old_nodes.len(),
            k <= instance.subgroups@.len(),
            forall|i: int|
                0 <= i < instance.nodes@.len() ==> {
                    let n = #[trigger] instance.nodes@[i];
                    let o = old_nodes[i];
                    &&& n.id == o.id
                    &&& n.point == o.point
                    &&& n.parent_subgroup_ids@ == o.parent_subgroup_ids@ + parent_subgroups(
                        groups,
                        k as int,
                        i as usize,
                    )
                },
        decreases instance.subgroups@.len() - k,
    {
        let sid = instance.subgroups[k].id;
        let len = instance.subgroups[k].node_ids.len();
        let mut j: usize = 0;
        while j < len
            invariant
                references_in_range(*instance),
                instance.name == old(instance).name,
                instance.metric == old(instance).metric,
                instance.subgroups == old(instance).subgroups,
                instance.clusters == old(instance).clusters,
                instance.vehicles == old(instance).vehicles,
                groups == item_views(instance.subgroups@),
                old_nodes == old(instance).nodes@,
                instance.nodes@.len() == old_nodes.len(),
                k < instance.subgroups@.len(),
                sid == instance.subgroups@[k as int].id,
                len == instance.subgroups@[k as int].node_ids@.len(),
                j <= len,
                forall|i: int|
                    0 <= i < instance.nodes@.len() ==> {
                        let n = #[trigger] instance.nodes@[i];
                        let o = old_nodes[i];
                        &&& n.id == o.id
                        &&& n.point == o.point
                        &&& n.parent_subgroup_ids@ == o.parent_subgroup_ids@ + parent_subgroups(
                            groups,
                            k as int,
                            i as usize,
                        ) + (if instance.subgroups@[k as int].node_ids@.subrange(0, j as int).contains(
                            i as usize,
                        ) {
                            set![sid]
                        } else {
                            Set::empty()
                        })
                    },
            decreases len - j,
        {
            let node_id = instance.subgroups[k].node_ids[j];
            let ghost before = instance.nodes@;
            instance.nodes[node_id].parent_subgroup_ids.insert(sid);
            proof {
                let ids = instance.subgroups@[k as int].node_ids@;
                assert(ids[j as int] == node_id);
                assert(ids.subrange(0, j + 1) =~= ids.subrange(0, j as int).push(node_id));
                assert forall|i: int| 0 <= i < instance.nodes@.len() implies {
                    let n = #[trigger] instance.nodes@[i];
                    let o = old_nodes[i];
                    &&& n.id == o.id
                    &&& n.point == o.point
                    &&& n.parent_subgroup_ids@ == o.parent_subgroup_ids@ + parent_subgroups(
                        groups,
                        k as int,
                        i as usize,
                    ) + (if ids.subrange(0, j + 1).contains(i as usize) {
                        set![sid]
                    } else {
                        Set::empty()
                    })
                } by {
                    let b = before[i];
                    assert(instance.nodes@.len() == instance.nodes.len());
                    assert(i as usize == i);
                    assert(instance.nodes@.len() == before.len());
                    assert(b.id == old_nodes[i].id);
                    lemma_push_contains(ids.subrange(0, j as int), node_id, i as usize);
                    assert(ids.subrange(0, j as int).push(node_id).contains(i as usize) == (ids.subrange(0, j as int).contains(i as usize) || node_id == i as usize));
                    assert(ids.subrange(0, j + 1)[j as int] == node_id);
                    if i == node_id as int {
                        assert(ids.subrange(0, j + 1).contains(i as usize));
                        assert(instance.nodes@[i].parent_subgroup_ids@ =~= b.parent_subgroup_ids@.insert(sid));
                        assert(instance.nodes@[i].id == b.id);
                        assert(instance.nodes@[i].point == b.point);
                    } else {
                        assert(instance.nodes@[i] == b);
                        assert(node_id != i as usize);
                        assert(ids.subrange(0, j as int).push(node_id) == ids.subrange(0, j + 1));
                        assert(ids.subrange(0, j + 1).contains(i as usize) == ids.subrange(0, j as int).contains(i as usize));
                    }
                }
            }
            j = j + 1;
        }
        proof {
            let ids = instance.subgroups@[k as int].node_ids@;
            assert(ids.subrange(0, len as int) =~= ids);
            assert forall|i: int| 0 <= i < instance.nodes@.len() implies #[trigger] parent_subgroups(
                groups,
                k as int,
                i as usize,
            ) + (if ids.contains(i as usize) {
                set![sid]
            } else {
                Set::empty()
            }) == parent_subgroups(groups, k + 1, i as usize) by {
                assert(groups[k as int].id == sid && groups[k as int].node_ids == ids);
                assert(parent_subgroups(groups, k as int, i as usize) + (if ids.contains(i as usize) {
                    set![sid]
                } else {
                    Set::empty()
                }) =~= parent_subgroups(groups, k + 1, i as usize));
            }
            assert forall|i: int| 0 <= i < instance.nodes@.len() implies {
                let n = #[trigger] instance.nodes@[i];
                let o = old_nodes[i];
                n.parent_subgroup_ids@ == o.parent_subgroup_ids@ + parent_subgroups(groups, k + 1, i as usize)
            } by {
                let o = old_nodes[i];
                assert(o.parent_subgroup_ids@ + parent_subgroups(groups, k as int, i as usize) + (if ids.contains(i as usize) {
                    set![sid]
                } else {
                    Set::empty()
                }) =~= o.parent_subgroup_ids@ + parent_subgroups(groups, k + 1, i as usize));
            }
        }
        k = k + 1;
    }
}

/// Sets each subgroup's parent cluster to the last cluster that lists it.
fn link_clusters_references(instance: &mut Instance)
    requires
        references_in_range(*old(instance)),
    ensures
        final(instance).name == old(instance).name,
        final(instance).metric == old(instance).metric,
        final(instance).nodes == old(instance).nodes,
        final(instance).clusters == old(instance).clusters,
        final(instance).vehicles == old(instance).vehicles,
        final(instance).subgroups@.len() == old(instance).subgroups@.len(),
        forall|j: int|
            0 <= j < final(instance).subgroups@.len() ==> {
                let g = #[trigger] final(instance).subgroups@[j];
                let o = old(instance).subgroups@[j];
                &&& g.id == o.id
                &&& g.profit == o.profit
                &&& g.node_ids == o.node_ids
                &&& g.parent_cluster_id == parent_cluster(
                    item_views(old(instance).clusters@),
                    j as usize,
                    o.parent_cluster_id,
                )
            },
{
    let ghost old_groups = instance.subgroups@;
    let ghost cs = item_views(instance.clusters@);
    let mut k: usize = 0;
    while k < instance.clusters.len()
        invariant
            references_in_range(*instance),
            instance.name == old(instance).name,
            instance.metric == old(instance).metric,
            instance.nodes == old(instance).nodes,
            instance.clusters == old(instance).clusters,
            instance.vehicles == old(instance).vehicles,
            cs == item_views(instance.clusters@),
            old_groups == old(instance).subgroups@,
            instance.subgroups@.len() == old_groups.len(),
            k <= instance.clusters@.len(),
            forall|j: int|
                0 <= j < instance.subgroups@.len() ==> {
                    let g = #[trigger] instance.subgroups@[j];
                    let o = old_groups[j];
                    &&& g.id == o.id
                    &&& g.profit == o.profit
                    &&& g.node_ids == o.node_ids
                    &&& g.parent_cluster_id == parent_cluster(
                        cs.subrange(0, k as int),
                        j as usize,
                        o.parent_cluster_id,
                    )
                },
        decreases instance.clusters@.len() - k,
    {
        let cid = instance.clusters[k].id;
        let len = instance.clusters[k].subgroup_ids.len();
        let mut i: usize = 0;
        while i < len
            invariant
                references_in_range(*instance),
                instance.name == old(instance).name,
                instance.metric == old(instance).metric,
                instance.nodes == old(instance).nodes,
                instance.clusters == old(instance).clusters,
                instance.vehicles == old(instance).vehicles,
                cs == item_views(instance.clusters@),
                old_groups == old(instance).subgroups@,
                instance.subgroups@.len() == old_groups.len(),
                k < instance.clusters@.len(),
                cid == instance.clusters@[k as int].id,
                len == instance.clusters@[k as int].subgroup_ids@.len(),
                i <= len,
                forall|j: int|
                    0 <= j < instance.subgroups@.len() ==> {
                        let g = #[trigger] instance.subgroups@[j];
                        let o = old_groups[j];
                        &&& g.id == o.id
                        &&& g.profit == o.profit
                        &&& g.node_ids == o.node_ids
                        &&& g.parent_cluster_id == if instance.clusters@[k as int].subgroup_ids@.subrange(
                            0,
                            i as int,
                        ).contains(j as usize) {
                            cid
                        } else {
                            parent_cluster(cs.subrange(0, k as int), j as usize, o.parent_cluster_id)
                        }
                    },
            decreases len - i,
        {
            let sg = instance.clusters[k].subgroup_ids[i];
            let ghost before = instance.subgroups@;
            instance.subgroups[sg].parent_cluster_id = cid;
            proof {
                let ids = instance.clusters@[k as int].subgroup_ids@;
                assert(ids.subrange(0, i + 1) =~= ids.subrange(0, i as int).push(sg));
                assert forall|j: int| 0 <= j < instance.subgroups@.len() implies {
                    let g = #[trigger] instance.subgroups@[j];
                    let o = old_groups[j];
                    &&& g.id == o.id
                    &&& g.profit == o.profit
                    &&& g.node_ids == o.node_ids
                    &&& g.parent_cluster_id == if ids.subrange(0, i + 1).contains(j as usize) {
                        cid
                    } else {
                        parent_cluster(cs.subrange(0, k as int), j as usize, o.parent_cluster_id)
                    }
                } by {
                    assert(ids.subrange(0, i + 1)[i as int] == sg);
                    assert(instance.subgroups@.len() == instance.subgroups.len());
                    assert(j as usize == j);
                    lemma_push_contains(ids.subrange(0, i as int), sg, j as usize);
                    if j == sg as int {
                        assert(ids.subrange(0, i + 1).contains(j as usize));
                    } else {
                        assert(instance.subgroups@[j] == before[j]);
                    }
                }
            }
            i = i + 1;
        }
        proof {
            let ids = instance.clusters@[k as int].subgroup_ids@;
            assert(ids.subrange(0, len as int) =~= ids);
            assert(cs.subrange(0, k + 1).drop_last() =~= cs.subrange(0, k as int));
            assert(cs.subrange(0, k + 1).last() == cs[k as int]);
        }
        k = k + 1;
    }
    proof {
        assert(cs.subrange(0, cs.len() as int) =~= cs);
    }
}

/// Links nodes to their subgroups and subgroups to their clusters.
pub fn link_parent_references(instance: &mut Instance)
    requires
        references_in_range(*old(instance)),
    ensures
        final(instance).name == old(instance).name,
        final(instance).metric == old(instance).metric,
        final(instance).clusters == old(instance).clusters,
        final(instance).vehicles == old(instance).vehicles,
        final(instance).nodes@.len() == old(instance).nodes@.len(),
        final(instance).subgroups@.len() == old(instance).subgroups@.len(),
        forall|i: int|
            0 <= i < final(instance).nodes@.len() ==> {
                let n = #[trigger] final(instance).nodes@[i];
                let o = old(instance).nodes@[i];
                &&& n.id == o.id
                &&& n.point == o.point
                &&& n.parent_subgroup_ids@ == o.parent_subgroup_ids@ + parent_subgroups(
                    item_views(old(instance).subgroups@),
                    old(instance).subgroups@.len() as int,
                    i as usize,
                )
            },
        forall|j: int|
            0 <= j < final(instance).subgroups@.len() ==> {
                let g = #[trigger] final(instance).subgroups@[j];
                let o = old(instance).subgroups@[j];
                &&& g.id == o.id
                &&& g.profit == o.profit
                &&& g.node_ids == o.node_ids
                &&& g.parent_cluster_id == parent_cluster(
                    item_views(old(instance).clusters@),
                    j as usize,
                    o.parent_cluster_id,
                )
            },
{
    link_nodes_references(instance);
    link_clusters_references(instance);
}

} // verus!
