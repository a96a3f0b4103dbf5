//! Reading a whole instance text: the header, the sections, then the links
//! from items to the items that hold them.
use crate::error::InputError;
use crate::instance::{
    ids_are_positions, item_views, references_in_range, vehicles_in_range, ClusterView, Instance,
    Metric, NodeView, SubgroupView, VehicleView,
};
use crate::parser::header::{header_outcome, read_header};
use crate::parser::linker::{lemma_parent_cluster_law, link_parent_references, parent_cluster, parent_subgroups};
use crate::parser::sections::reading::{being_read, sections_outcome, sections_view, SectionsView};
use crate::parser::sections::read_sections;
use crate::parser::utils::{rest_after, LineTracker};
use vstd::prelude::*;

verus! {

/// An instance as plain values.
pub struct InstanceView {
    pub name: Seq<char>,
    pub metric: Metric,
    pub sections: SectionsView,
}

pub open spec fn instance_view(instance: Instance) -> InstanceView {
    InstanceView { name: instance.name@, metric: instance.metric, sections: sections_view(instance) }
}

/// No items yet.
pub open spec fn no_sections() -> SectionsView {
    SectionsView {
        nodes: Seq::empty(),
        subgroups: Seq::empty(),
        clusters: Seq::empty(),
        vehicles: Seq::empty(),
    }
}

/// The sections once each node lists, besides its own parents, the subgroups
/// that hold it, and each subgroup names the last cluster that holds it.
pub open spec fn linked(st: SectionsView) -> SectionsView {
    SectionsView {
        nodes: st.nodes.map(
            |i: int, n: NodeView|
                NodeView {
                    parents: n.parents + parent_subgroups(st.subgroups, st.subgroups.len() as int, i as usize),
                    ..n
                },
        ),
        subgroups: st.subgroups.map(
            |j: int, g: SubgroupView|
                SubgroupView {
                    parent_cluster_id: parent_cluster(st.clusters, j as usize, g.parent_cluster_id),
                    ..g
                },
        ),
        ..st
    }
}

/// What an instance text holds: its header, then its sections read with the
/// counts the header declared, then the links; or the first error met.
pub open spec fn instance_outcome(text: Seq<char>) -> Result<InstanceView, Seq<char>> {
    match header_outcome(text) {
        Err(m) => Err(m),
        Ok(h) => match sections_outcome(rest_after(text, 8), no_sections(), h.dims) {
            Err(m) => Err(m),
            Ok(st) => Ok(InstanceView { name: h.name, metric: h.metric, sections: linked(st) }),
        },
    }
}

/// Node `i` lists subgroup `k` as a parent exactly when subgroup `k` holds
/// node `i`.
pub open spec fn parents_match_members(instance: Instance) -> bool {
    forall|i: int, k: usize|
        0 <= i < instance.nodes@.len() ==> (#[trigger] instance.nodes@[i].parent_subgroup_ids@.contains(k)
            <==> (k < instance.subgroups@.len() && instance.subgroups@[k as int].node_ids@.contains(
            i as usize,
        )))
}

/// Each subgroup names the last cluster that holds it, or 0 when none does.
pub open spec fn clusters_match_members(instance: Instance) -> bool {
    forall|j: int|
        0 <= j < instance.subgroups@.len() ==> (#[trigger] instance.subgroups@[j]).parent_cluster_id
            == parent_cluster(item_views(instance.clusters@), j as usize, 0)
}

/// Each subgroup names the last cluster that lists it, or 0 when no
/// cluster lists it.
pub open spec fn subgroups_name_last_listing_cluster(instance: Instance) -> bool {
    &&& forall|j: int, k: int|
        #![trigger instance.subgroups@[j], instance.clusters@[k]]
        0 <= j < instance.subgroups@.len() && 0 <= k < instance.clusters@.len()
            && instance.clusters@[k].subgroup_ids@.contains(j as usize) && (forall|k2: int|
            k < k2 < instance.clusters@.len() ==> !(#[trigger] instance.clusters@[k2]).subgroup_ids@.contains(
                j as usize,
            )) ==> instance.subgroups@[j].parent_cluster_id == instance.clusters@[k].id
    &&& forall|j: int|
        0 <= j < instance.subgroups@.len() && (forall|k: int|
            0 <= k < instance.clusters@.len() ==> !(#[trigger] instance.clusters@[k]).subgroup_ids@.contains(
                j as usize,
            )) ==> (#[trigger] instance.subgroups@[j]).parent_cluster_id == 0
}

/// What `clusters_match_members` says, with the clusters' lists read
/// directly.
pub proof fn lemma_last_listing_cluster(instance: Instance)
    requires
        clusters_match_members(instance),
    ensures
        subgroups_name_last_listing_cluster(instance),
{
    let cs = item_views(instance.clusters@);
    assert forall|k: int| 0 <= k < cs.len() implies #[trigger] cs[k] == instance.clusters@[k]@ by {}
    assert forall|j: int, k: int|
        #![trigger instance.subgroups@[j], instance.clusters@[k]]
        0 <= j < instance.subgroups@.len() && 0 <= k < instance.clusters@.len()
            && instance.clusters@[k].subgroup_ids@.contains(j as usize) && (forall|k2: int|
            k < k2 < instance.clusters@.len() ==> !(#[trigger] instance.clusters@[k2]).subgroup_ids@.contains(
                j as usize,
            )) implies instance.subgroups@[j].parent_cluster_id == instance.clusters@[k].id by {
        lemma_parent_cluster_law(cs, j as usize, 0);
        assert(cs[k].subgroup_ids.contains(j as usize));
        assert forall|k2: int| k < k2 < cs.len() implies !(#[trigger] cs[k2]).subgroup_ids.contains(j as usize) by {
            assert(cs[k2] == instance.clusters@[k2]@);
            assert(!instance.clusters@[k2].subgroup_ids@.contains(j as usize));
        }
        assert(instance.subgroups@[j].parent_cluster_id == parent_cluster(cs, j as usize, 0));
    }
    assert forall|j: int|
        0 <= j < instance.subgroups@.len() && (forall|k: int|
            0 <= k < instance.clusters@.len() ==> !(#[trigger] instance.clusters@[k]).subgroup_ids@.contains(
                j as usize,
            )) implies (#[trigger] instance.subgroups@[j]).parent_cluster_id == 0 by {
        lemma_parent_cluster_law(cs, j as usize, 0);
        assert forall|k: int| 0 <= k < cs.len() implies !(#[trigger] cs[k]).subgroup_ids.contains(j as usize) by {
            assert(cs[k] == instance.clusters@[k]@);
            assert(!instance.clusters@[k].subgroup_ids@.contains(j as usize));
        }
        assert(instance.subgroups@[j].parent_cluster_id == parent_cluster(cs, j as usize, 0));
    }
}

/// Reads an instance from its text.
pub fn read_instance(text: &str) -> (r: Result<Instance, InputError>)
    ensures
        match r {
            Ok(instance) => {
                &&& instance_outcome(text@) == Ok::<InstanceView, Seq<char>>(instance_view(instance))
                &&& ids_are_positions(instance)
                &&& references_in_range(instance)
                &&& vehicles_in_range(instance)
                &&& parents_match_members(instance)
                &&& clusters_match_members(instance)
                &&& subgroups_name_last_listing_cluster(instance)
            },
            Err(e) => instance_outcome(text@) == Err::<InstanceView, Seq<char>>(e.message@),
        },
{
    let mut tracker = LineTracker::new(text);
    let mut instance = Instance {
        name: String::new(),
        metric: Metric::Euc3d,
        nodes: Vec::new(),
        subgroups: Vec::new(),
        clusters: Vec::new(),
        vehicles: Vec::new(),
    };
    proof {
        assert(item_views(instance.nodes@) =~= Seq::<NodeView>::empty());
        assert(item_views(instance.subgroups@) =~= Seq::<SubgroupView>::empty());
        assert(item_views(instance.clusters@) =~= Seq::<ClusterView>::empty());
        assert(item_views(instance.vehicles@) =~= Seq::<VehicleView>::empty());
        assert(sections_view(instance) == no_sections());
    }
    let dims = read_header(&mut instance, &mut tracker)?;
    let ghost st0 = sections_view(instance);
    read_sections(&mut instance, &mut tracker, dims)?;
    let ghost unlinked_instance = instance;
    link_parent_references(&mut instance);
    proof {
        lemma_linked(unlinked_instance, instance);
        lemma_last_listing_cluster(instance);
    }
    Ok(instance)
}

/// What linking an instance read from a text gives.
proof fn lemma_linked(before: Instance, after: Instance)
    requires
        being_read(before),
        after.name == before.name,
        after.metric == before.metric,
        after.clusters == before.clusters,
        after.vehicles == before.vehicles,
        after.nodes@.len() == before.nodes@.len(),
        after.subgroups@.len() == before.subgroups@.len(),
        forall|i: int|
            0 <= i < after.nodes@.len() ==> {
                let n = #[trigger] after.nodes@[i];
                let o = before.nodes@[i];
                &&& n.id == o.id
                &&& n.point == o.point
                &&& n.parent_subgroup_ids@ == o.parent_subgroup_ids@ + parent_subgroups(
                    item_views(before.subgroups@),
                    before.subgroups@.len() as int,
                    i as usize,
                )
            },
        forall|j: int|
            0 <= j < after.subgroups@.len() ==> {
                let g = #[trigger] after.subgroups@[j];
                let o = before.subgroups@[j];
                &&& g.id == o.id
                &&& g.profit == o.profit
                &&& g.node_ids == o.node_ids
                &&& g.parent_cluster_id == parent_cluster(
                    item_views(before.clusters@),
                    j as usize,
                    o.parent_cluster_id,
                )
            },
    ensures
        sections_view(after) == linked(sections_view(before)),
        ids_are_positions(after),
        references_in_range(after),
        vehicles_in_range(after),
        parents_match_members(after),
        clusters_match_members(after),
{
    let st = sections_view(before);
    let l = linked(st);
    assert(sections_view(after).nodes =~= l.nodes) by {
        assert forall|i: int| 0 <= i < after.nodes@.len() implies #[trigger] item_views(after.nodes@)[i]
            == l.nodes[i] by {
            assert(item_views(before.nodes@)[i] == before.nodes@[i]@);
        }
    }
    assert(sections_view(after).subgroups =~= l.subgroups) by {
        assert forall|j: int| 0 <= j < after.subgroups@.len() implies #[trigger] item_views(after.subgroups@)[j]
            == l.subgroups[j] by {
            assert(item_views(before.subgroups@)[j] == before.subgroups@[j]@);
        }
    }
    assert forall|i: int, k: usize| 0 <= i < after.nodes@.len() implies (
    #[trigger] after.nodes@[i].parent_subgroup_ids@.contains(k) <==> (k < after.subgroups@.len()
        && after.subgroups@[k as int].node_ids@.contains(i as usize))) by {
        let subs = item_views(before.subgroups@);
        assert(before.nodes@[i].parent_subgroup_ids@ == Set::<usize>::empty());
        if after.nodes@[i].parent_subgroup_ids@.contains(k) {
            let w = choose|w: int|
                0 <= w < before.subgroups@.len() && #[trigger] subs[w].id == k && subs[w].node_ids.contains(
                    i as usize,
                );
            assert(subs[w] == before.subgroups@[w]@);
            assert(before.subgroups@[w].id == w);
        }
        if k < after.subgroups@.len() && after.subgroups@[k as int].node_ids@.contains(i as usize) {
            assert(subs[k as int] == before.subgroups@[k as int]@);
            assert(before.subgroups@[k as int].id == k);
            assert(after.subgroups@[k as int].node_ids == before.subgroups@[k as int].node_ids);
            assert(subs[k as int].id == k && subs[k as int].node_ids.contains(i as usize));
            assert(parent_subgroups(subs, before.subgroups@.len() as int, i as usize).contains(k));
        }
    }
    assert forall|j: int| 0 <= j < after.subgroups@.len() implies (#[trigger] after.subgroups@[j]).parent_cluster_id
        == parent_cluster(item_views(after.clusters@), j as usize, 0) by {
        assert(before.subgroups@[j].parent_cluster_id == 0);
    }
    assert forall|k: int, j: int|
        0 <= k < after.subgroups@.len() && 0 <= j < after.subgroups@[k].node_ids@.len()
            implies #[trigger] after.subgroups@[k].node_ids@[j] < after.nodes@.len() by {
        assert(after.subgroups@[k].node_ids == before.subgroups@[k].node_ids);
    }
    assert forall|k: int| 0 <= k < after.subgroups@.len() implies (#[trigger] after.subgroups@[k]).id == k by {
        assert(after.subgroups@[k].id == before.subgroups@[k].id);
    }
    assert forall|k: int| 0 <= k < after.nodes@.len() implies (#[trigger] after.nodes@[k]).id == k by {
        assert(after.nodes@[k].id == before.nodes@[k].id);
    }
}

} // verus!
