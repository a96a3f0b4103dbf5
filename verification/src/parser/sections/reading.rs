//! Reading all the sections that follow the header.
use crate::error::InputError;
use crate::instance::{
    ids_are_positions, item_views, references_in_range, vehicles_in_range, ClusterView, HasId,
    Instance, NodeView, SubgroupView, VehicleView,
};
use crate::parser::header::Dimensions;
use crate::parser::sections::common::{
    get_section_name, lemma_parse_refs_in_range, lemma_read_items_rest, msg_unknown_section,
    process_default_section, read_items, section_name,
};
use crate::parser::sections::{cluster, node, subgroup, vehicle};
use crate::parser::utils::{
    is_empty_or_comment, lemma_next_valid_line, next_valid_line, spec_is_empty_or_comment,
    LineTracker,
};
use crate::parser::validator::ids_of;
use crate::text::{split_ws, str_eq};
use vstd::prelude::*;

verus! {

broadcast use vstd::string::group_string_axioms;

/// The items of the four sections.
pub struct SectionsView {
    pub nodes: Seq<NodeView>,
    pub subgroups: Seq<SubgroupView>,
    pub clusters: Seq<ClusterView>,
    pub vehicles: Seq<VehicleView>,
}

/// The sections of an instance as plain values.
pub open spec fn sections_view(instance: Instance) -> SectionsView {
    SectionsView {
        nodes: item_views(instance.nodes@),
        subgroups: item_views(instance.subgroups@),
        clusters: item_views(instance.clusters@),
        vehicles: item_views(instance.vehicles@),
    }
}

pub open spec fn node_view_ids(nodes: Seq<NodeView>) -> Seq<usize> {
    nodes.map_values(|n: NodeView| n.id)
}

pub open spec fn subgroup_view_ids(subgroups: Seq<SubgroupView>) -> Seq<usize> {
    subgroups.map_values(|g: SubgroupView| g.id)
}

/// How many items a section holds once read: the declared count, or what it
/// already holds when that is more.
pub open spec fn target_count(count: usize, have: nat) -> nat {
    if have < count {
        count as nat
    } else {
        have
    }
}

/// The names of the four data sections.
pub open spec fn is_known_section(name: Seq<char>) -> bool {
    ||| name == "NODE_COORD_SECTION"@
    ||| name == "SUBGROUP_SECTION"@
    ||| name == "CLUSTER_SECTION"@
    ||| name == "VEHICLES_SECTION"@
}

/// Reading the items of the section `name` from `s` onto `st`: the new
/// sections, or the first error, and the text that follows.
pub open spec fn section_items(name: Seq<char>, s: Seq<char>, st: SectionsView, dims: Dimensions) -> (
    Result<SectionsView, Seq<char>>,
    Seq<char>,
) {
    if name == "NODE_COORD_SECTION"@ {
        let have = st.nodes.len();
        let r = read_items(s, have, (target_count(dims.nodes, have) - have) as nat, node::node_model_fn(), "Node"@);
        (
            match r.0 {
                Ok(items) => Ok(SectionsView { nodes: st.nodes + items, ..st }),
                Err(m) => Err(m),
            },
            r.1,
        )
    } else if name == "SUBGROUP_SECTION"@ {
        let have = st.subgroups.len();
        let model = subgroup::subgroup_model_fn(node_view_ids(st.nodes));
        let r = read_items(s, have, (target_count(dims.subgroups, have) - have) as nat, model, "Subgroup"@);
        (
            match r.0 {
                Ok(items) => Ok(SectionsView { subgroups: st.subgroups + items, ..st }),
                Err(m) => Err(m),
            },
            r.1,
        )
    } else if name == "CLUSTER_SECTION"@ {
        let have = st.clusters.len();
        let model = cluster::cluster_model_fn(subgroup_view_ids(st.subgroups));
        let r = read_items(s, have, (target_count(dims.clusters, have) - have) as nat, model, "Cluster"@);
        (
            match r.0 {
                Ok(items) => Ok(SectionsView { clusters: st.clusters + items, ..st }),
                Err(m) => Err(m),
            },
            r.1,
        )
    } else {
        let have = st.vehicles.len();
        let model = vehicle::vehicle_model_fn(node_view_ids(st.nodes));
        let r = read_items(s, have, (target_count(dims.vehicles, have) - have) as nat, model, "Vehicle"@);
        (
            match r.0 {
                Ok(items) => Ok(SectionsView { vehicles: st.vehicles + items, ..st }),
                Err(m) => Err(m),
            },
            r.1,
        )
    }
}

/// What follows a section is no longer than the text it was read from.
pub proof fn lemma_section_items_rest(name: Seq<char>, s: Seq<char>, st: SectionsView, dims: Dimensions)
    ensures
        section_items(name, s, st, dims).1.len() <= s.len(),
{
    if name == "NODE_COORD_SECTION"@ {
        let have = st.nodes.len();
        lemma_read_items_rest(s, have, (target_count(dims.nodes, have) - have) as nat, node::node_model_fn(), "Node"@);
    } else if name == "SUBGROUP_SECTION"@ {
        let have = st.subgroups.len();
        let model = subgroup::subgroup_model_fn(node_view_ids(st.nodes));
        lemma_read_items_rest(s, have, (target_count(dims.subgroups, have) - have) as nat, model, "Subgroup"@);
    } else if name == "CLUSTER_SECTION"@ {
        let have = st.clusters.len();
        let model = cluster::cluster_model_fn(subgroup_view_ids(st.subgroups));
        lemma_read_items_rest(s, have, (target_count(dims.clusters, have) - have) as nat, model, "Cluster"@);
    } else {
        let have = st.vehicles.len();
        let model = vehicle::vehicle_model_fn(node_view_ids(st.nodes));
        lemma_read_items_rest(s, have, (target_count(dims.vehicles, have) - have) as nat, model, "Vehicle"@);
    }
}

/// Reading the sections of `s` onto `st`, with the counts that the header
/// declared: each section line names a section whose items follow it; blank
/// names are passed over; the end of the text ends the reading.
pub open spec fn sections_outcome(s: Seq<char>, st: SectionsView, dims: Dimensions) -> Result<
    SectionsView,
    Seq<char>,
>
    decreases s.len(),
{
    let line = next_valid_line(s).0;
    let rest = next_valid_line(s).1;
    let name = section_name(line);
    if line.len() == 0 {
        Ok(st)
    } else {
        proof {
            lemma_next_valid_line(s);
            lemma_section_items_rest(name, rest, st, dims);
        }
        if spec_is_empty_or_comment(name) {
            sections_outcome(rest, st, dims)
        } else if is_known_section(name) {
            let r = section_items(name, rest, st, dims);
            match r.0 {
                Err(m) => Err(m),
                Ok(next) => sections_outcome(r.1, next, dims),
            }
        } else {
            Err(msg_unknown_section(name))
        }
    }
}

/// No node lists a parent subgroup yet and no subgroup a parent cluster.
pub open spec fn unlinked(instance: Instance) -> bool {
    &&& forall|i: int|
        0 <= i < instance.nodes@.len() ==> (#[trigger] instance.nodes@[i]).parent_subgroup_ids@
            == Set::<usize>::empty()
    &&& forall|j: int|
        0 <= j < instance.subgroups@.len() ==> (#[trigger] instance.subgroups@[j]).parent_cluster_id
            == 0
}

/// What holds of an instance while its sections are read.
pub open spec fn being_read(instance: Instance) -> bool {
    &&& ids_are_positions(instance)
    &&& references_in_range(instance)
    &&& vehicles_in_range(instance)
    &&& unlinked(instance)
}

/// What a section reader keeps of the instance and what it owes.
pub open spec fn section_read(
    name: Seq<char>,
    dims: Dimensions,
    before: Instance,
    after: Instance,
    s0: Seq<char>,
    s1: Seq<char>,
    r: Result<(), InputError>,
) -> bool {
    let expected = section_items(name, s0, sections_view(before), dims);
    &&& after.name == before.name
    &&& after.metric == before.metric
    &&& ids_are_positions(after)
    &&& match r {
        Ok(()) => {
            &&& expected.0 == Ok::<SectionsView, Seq<char>>(sections_view(after))
            &&& expected.1 == s1
            &&& being_read(after)
        },
        Err(e) => expected.0 == Err::<SectionsView, Seq<char>>(e.message@),
    }
}

/// Every item read satisfies what every item the model gives satisfies.
pub proof fn lemma_read_items_all<V>(
    s: Seq<char>,
    next: nat,
    remaining: nat,
    model: spec_fn(Seq<Seq<char>>) -> Result<(V, usize), Seq<char>>,
    section: Seq<char>,
    p: spec_fn(V) -> bool,
)
    requires
        forall|parts: Seq<Seq<char>>| #[trigger] model(parts) is Ok ==> p(model(parts)->Ok_0.0),
    ensures
        read_items(s, next, remaining, model, section).0 matches Ok(items) ==> forall|i: int|
            0 <= i < items.len() ==> p(#[trigger] items[i]),
    decreases remaining,
{
    if remaining > 0 {
        let line = next_valid_line(s).0;
        let rest = next_valid_line(s).1;
        lemma_read_items_all(rest, next + 1, (remaining - 1) as nat, model, section, p);
        if let Ok(item) = model(split_ws(line)) {
            assert(p(item.0));
            if let Ok(items) = read_items(s, next, remaining, model, section).0 {
                let tail = read_items(rest, next + 1, (remaining - 1) as nat, model, section).0->Ok_0;
                assert forall|i: int| 0 <= i < items.len() implies p(#[trigger] items[i]) by {
                    if i > 0 {
                        assert(items[i] == tail[i - 1]);
                    }
                }
            }
        }
    }
}

proof fn lemma_ids_of_views<T: HasId + View>(items: Seq<T>, f: spec_fn(T::V) -> usize)
    requires
        forall|t: T| #[trigger] f(t@) == t.spec_id(),
    ensures
        ids_of(items) == item_views(items).map_values(f),
{
    assert forall|i: int| 0 <= i < items.len() implies ids_of(items)[i] == item_views(items).map_values(f)[i] by {
        assert(f(items[i]@) == items[i].spec_id());
    }
    assert(ids_of(items) =~= item_views(items).map_values(f));
}

proof fn lemma_appended<T: View>(before: Seq<T>, after: Seq<T>, n0: nat, target: nat)
    requires
        n0 <= target,
        after.len() == target,
        after.subrange(0, n0 as int) == before,
        before.len() == n0,
    ensures
        item_views(after) == item_views(before) + item_views(after.subrange(n0 as int, target as int)),
{
    assert(item_views(after) =~= item_views(before) + item_views(after.subrange(n0 as int, target as int)));
}

/// The four section names are distinct.
proof fn lemma_section_names_distinct()
    ensures
        "NODE_COORD_SECTION"@ != "SUBGROUP_SECTION"@,
        "NODE_COORD_SECTION"@ != "CLUSTER_SECTION"@,
        "NODE_COORD_SECTION"@ != "VEHICLES_SECTION"@,
        "SUBGROUP_SECTION"@ != "CLUSTER_SECTION"@,
        "SUBGROUP_SECTION"@ != "VEHICLES_SECTION"@,
        "CLUSTER_SECTION"@ != "VEHICLES_SECTION"@,
{
    reveal_strlit("NODE_COORD_SECTION");
    reveal_strlit("SUBGROUP_SECTION");
    reveal_strlit("CLUSTER_SECTION");
    reveal_strlit("VEHICLES_SECTION");
    assert("NODE_COORD_SECTION"@.len() == 18);
    assert("SUBGROUP_SECTION"@.len() == 16);
    assert("CLUSTER_SECTION"@.len() == 15);
    assert("VEHICLES_SECTION"@.len() == 16);
    assert("SUBGROUP_SECTION"@[0] != "VEHICLES_SECTION"@[0]);
}

fn read_node_section(instance: &mut Instance, tracker: &mut LineTracker, dims: Dimensions) -> (r: Result<(), InputError>)
    requires
        old(tracker).wf(),
        being_read(*old(instance)),
    ensures
        final(tracker).wf(),
        section_read("NODE_COORD_SECTION"@, dims, *old(instance), *final(instance), old(tracker).rest(), final(tracker).rest(), r),
{
    let ghost st = sections_view(*instance);
    let ghost cur = tracker.rest();
    let ghost before = instance.nodes@;
    let r = node::process(tracker, &mut instance.nodes, dims.nodes);
    proof {
        if r is Ok {
            let n0 = before.len();
            let all = instance.nodes@;
            let target: nat = if n0 < dims.nodes { dims.nodes as nat } else { n0 };
            let model = node::node_model_fn();
            let p = |n: NodeView| n.parents == Set::<usize>::empty();
            assert forall|parts: Seq<Seq<char>>| #[trigger] model(parts) is Ok implies p(model(parts)->Ok_0.0) by {}
            lemma_appended_items_satisfy(all, n0, cur, (target - n0) as nat, model, "Node"@, p);
            assert forall|i: int| 0 <= i < all.len() implies (#[trigger] all[i]).parent_subgroup_ids@
                == Set::<usize>::empty() by {
                if i >= n0 {
                    assert(p(all[i]@));
                } else {
                    assert(all[i] == before[i]);
                }
            }
            lemma_appended(before, instance.nodes@, before.len(), instance.nodes@.len() as nat);
            assert(sections_view(*instance) == SectionsView {
                nodes: st.nodes + item_views(instance.nodes@.subrange(before.len() as int, instance.nodes@.len() as int)),
                ..st
            });
        }
    }
    r
}

/// The items that a section read appended satisfy what every item of the
/// section's model satisfies.
proof fn lemma_appended_items_satisfy<T: View>(
    all: Seq<T>,
    n0: nat,
    s: Seq<char>,
    remaining: nat,
    model: spec_fn(Seq<Seq<char>>) -> Result<(T::V, usize), Seq<char>>,
    section: Seq<char>,
    p: spec_fn(T::V) -> bool,
)
    requires
        n0 <= all.len(),
        forall|parts: Seq<Seq<char>>| #[trigger] model(parts) is Ok ==> p(model(parts)->Ok_0.0),
        read_items(s, n0, remaining, model, section).0 == Ok::<Seq<T::V>, Seq<char>>(
            item_views(all.subrange(n0 as int, all.len() as int)),
        ),
    ensures
        forall|k: int| n0 <= k < all.len() ==> p(#[trigger] all[k]@),
{
    lemma_read_items_all(s, n0, remaining, model, section, p);
    let items = item_views(all.subrange(n0 as int, all.len() as int));
    assert(read_items(s, n0, remaining, model, section).0->Ok_0 == items);
    assert forall|k: int| n0 <= k < all.len() implies p(#[trigger] all[k]@) by {
        assert(all.subrange(n0 as int, all.len() as int)[k - n0] == all[k]);
        assert(items[k - n0] == all[k]@);
        assert(p(items[k - n0]));
    }
}

fn read_subgroup_section(instance: &mut Instance, tracker: &mut LineTracker, dims: Dimensions) -> (r: Result<(), InputError>)
    requires
        old(tracker).wf(),
        being_read(*old(instance)),
    ensures
        final(tracker).wf(),
        section_read("SUBGROUP_SECTION"@, dims, *old(instance), *final(instance), old(tracker).rest(), final(tracker).rest(), r),
{
    let ghost st = sections_view(*instance);
    let ghost cur = tracker.rest();
    let ghost before = instance.subgroups@;
    proof {
        lemma_section_names_distinct();
        lemma_ids_of_views(instance.nodes@, |n: NodeView| n.id);
        assert(ids_of(instance.nodes@) == node_view_ids(st.nodes));
    }
    let r = subgroup::process(tracker, &mut instance.subgroups, dims.subgroups, &instance.nodes);
    proof {
        if r is Ok {
            let n0 = before.len();
            let all = instance.subgroups@;
            let nn = instance.nodes@.len();
            let ids = ids_of(instance.nodes@);
            let model = subgroup::subgroup_model_fn(ids);
            let target: nat = if n0 < dims.subgroups { dims.subgroups as nat } else { n0 };
            let items = item_views(all.subrange(n0 as int, target as int));
            let p = |g: SubgroupView|
                g.parent_cluster_id == 0 && forall|j: int| 0 <= j < g.node_ids.len() ==> #[trigger] g.node_ids[j] < nn;
            assert(read_items(cur, n0, (target - n0) as nat, model, "Subgroup"@).0 == Ok::<Seq<SubgroupView>, Seq<char>>(items));
            assert forall|parts: Seq<Seq<char>>| #[trigger] model(parts) is Ok implies p(model(parts)->Ok_0.0) by {
                if parts.len() >= 2 {
                    lemma_parse_refs_in_range(parts.subrange(2, parts.len() as int), "Node"@, ids);
                }
            }
            lemma_appended_items_satisfy(all, n0, cur, (target - n0) as nat, model, "Subgroup"@, p);
            assert forall|k: int, j: int| 0 <= k < all.len() && 0 <= j < all[k].node_ids@.len()
                implies #[trigger] all[k].node_ids@[j] < nn by {
                if k >= n0 {
                    assert(p(all[k]@));
                    assert(all[k]@.node_ids[j] == all[k].node_ids@[j]);
                } else {
                    assert(all[k] == before[k]);
                }
            }
            assert forall|k: int| 0 <= k < all.len() implies (#[trigger] all[k]).parent_cluster_id == 0 by {
                if k >= n0 {
                    assert(p(all[k]@));
                } else {
                    assert(all[k] == before[k]);
                }
            }
            lemma_ids_of_views(instance.nodes@, |n: NodeView| n.id);
            assert(ids == node_view_ids(st.nodes));
            lemma_appended(before, all, n0, target);
            assert(sections_view(*instance) == SectionsView { subgroups: st.subgroups + items, ..st });
        }
    }
    r
}

fn read_cluster_section(instance: &mut Instance, tracker: &mut LineTracker, dims: Dimensions) -> (r: Result<(), InputError>)
    requires
        old(tracker).wf(),
        being_read(*old(instance)),
    ensures
        final(tracker).wf(),
        section_read("CLUSTER_SECTION"@, dims, *old(instance), *final(instance), old(tracker).rest(), final(tracker).rest(), r),
{
    let ghost st = sections_view(*instance);
    let ghost cur = tracker.rest();
    let ghost before = instance.clusters@;
    proof {
        lemma_section_names_distinct();
        lemma_ids_of_views(instance.subgroups@, |g: SubgroupView| g.id);
        assert(ids_of(instance.subgroups@) == subgroup_view_ids(st.subgroups));
    }
    let r = cluster::process(tracker, &mut instance.clusters, dims.clusters, &instance.subgroups);
    proof {
        if r is Ok {
            let n0 = before.len();
            let all = instance.clusters@;
            let ns = instance.subgroups@.len();
            let ids = ids_of(instance.subgroups@);
            let model = cluster::cluster_model_fn(ids);
            let target: nat = if n0 < dims.clusters { dims.clusters as nat } else { n0 };
            let items = item_views(all.subrange(n0 as int, target as int));
            let p = |c: ClusterView| forall|j: int| 0 <= j < c.subgroup_ids.len() ==> #[trigger] c.subgroup_ids[j] < ns;
            assert(read_items(cur, n0, (target - n0) as nat, model, "Cluster"@).0 == Ok::<Seq<ClusterView>, Seq<char>>(items));
            assert forall|parts: Seq<Seq<char>>| #[trigger] model(parts) is Ok implies p(model(parts)->Ok_0.0) by {
                if parts.len() >= 2 {
                    lemma_parse_refs_in_range(parts.subrange(1, parts.len() as int), "Subgroup"@, ids);
                }
            }
            lemma_appended_items_satisfy(all, n0, cur, (target - n0) as nat, model, "Cluster"@, p);
            assert forall|k: int, j: int| 0 <= k < all.len() && 0 <= j < all[k].subgroup_ids@.len()
                implies #[trigger] all[k].subgroup_ids@[j] < ns by {
                if k >= n0 {
                    assert(p(all[k]@));
                    assert(all[k]@.subgroup_ids[j] == all[k].subgroup_ids@[j]);
                } else {
                    assert(all[k] == before[k]);
                }
            }
            lemma_ids_of_views(instance.subgroups@, |g: SubgroupView| g.id);
            assert(ids == subgroup_view_ids(st.subgroups));
            lemma_appended(before, all, n0, target);
            assert(sections_view(*instance) == SectionsView { clusters: st.clusters + items, ..st });
        }
    }
    r
}

fn read_vehicle_section(instance: &mut Instance, tracker: &mut LineTracker, dims: Dimensions) -> (r: Result<(), InputError>)
    requires
        old(tracker).wf(),
        being_read(*old(instance)),
    ensures
        final(tracker).wf(),
        section_read("VEHICLES_SECTION"@, dims, *old(instance), *final(instance), old(tracker).rest(), final(tracker).rest(), r),
{
    let ghost st = sections_view(*instance);
    let ghost cur = tracker.rest();
    let ghost before = instance.vehicles@;
    proof {
        lemma_section_names_distinct();
        lemma_ids_of_views(instance.nodes@, |n: NodeView| n.id);
        assert(ids_of(instance.nodes@) == node_view_ids(st.nodes));
    }
    let r = vehicle::process(tracker, &mut instance.vehicles, dims.vehicles, &instance.nodes);
    proof {
        if r is Ok {
            let n0 = before.len();
            let all = instance.vehicles@;
            let nn = instance.nodes@.len();
            let ids = ids_of(instance.nodes@);
            let model = vehicle::vehicle_model_fn(ids);
            let target: nat = if n0 < dims.vehicles { dims.vehicles as nat } else { n0 };
            let items = item_views(all.subrange(n0 as int, target as int));
            let p = |v: VehicleView| v.start_node_id < nn && v.end_node_id < nn;
            assert(read_items(cur, n0, (target - n0) as nat, model, "Vehicle"@).0 == Ok::<Seq<VehicleView>, Seq<char>>(items));
            assert forall|parts: Seq<Seq<char>>| #[trigger] model(parts) is Ok implies p(model(parts)->Ok_0.0) by {}
            lemma_appended_items_satisfy(all, n0, cur, (target - n0) as nat, model, "Vehicle"@, p);
            assert forall|k: int| 0 <= k < all.len() implies (#[trigger] all[k]).start_node_id < nn
                && all[k].end_node_id < nn by {
                if k >= n0 {
                    assert(p(all[k]@));
                } else {
                    assert(all[k] == before[k]);
                }
            }
            lemma_ids_of_views(instance.nodes@, |n: NodeView| n.id);
            assert(ids == node_view_ids(st.nodes));
            lemma_appended(before, all, n0, target);
            assert(sections_view(*instance) == SectionsView { vehicles: st.vehicles + items, ..st });
        }
    }
    r
}

/// Reads the sections that follow the header, up to the end of the text.
pub fn file_read_sections(instance: &mut Instance, tracker: &mut LineTracker, dims: Dimensions) -> (r: Result<
    (),
    InputError,
>)
    requires
        old(tracker).wf(),
        being_read(*old(instance)),
    ensures
        final(tracker).wf(),
        final(instance).name == old(instance).name,
        final(instance).metric == old(instance).metric,
        ids_are_positions(*final(instance)),
        r is Ok ==> being_read(*final(instance)),
        match r {
            Ok(()) => sections_outcome(old(tracker).rest(), sections_view(*old(instance)), dims) == Ok::<
                SectionsView,
                Seq<char>,
            >(sections_view(*final(instance))),
            Err(e) => sections_outcome(old(tracker).rest(), sections_view(*old(instance)), dims) == Err::<
                SectionsView,
                Seq<char>,
            >(e.message@),
        },
{
    let ghost s0 = tracker.rest();
    let ghost st0 = sections_view(*instance);
    let ghost name0 = instance.name;
    let ghost metric0 = instance.metric;
    loop
        invariant
            tracker.wf(),
            being_read(*instance),
            s0 == old(tracker).rest(),
            st0 == sections_view(*old(instance)),
            instance.name == name0,
            instance.metric == metric0,
            name0 == old(instance).name,
            metric0 == old(instance).metric,
            sections_outcome(s0, st0, dims) == sections_outcome(tracker.rest(), sections_view(*instance), dims),
        decreases tracker.rest().len(),
    {
        let ghost cur = tracker.rest();
        let ghost st = sections_view(*instance);
        proof {
            lemma_next_valid_line(cur);
        }
        let line = tracker.read_next_valid_line();
        if line.as_str().is_empty() {
            return Ok(());
        }
        let section = match get_section_name(line.as_str()) {
            Ok(name) => name,
            Err(e) => {
                return Err(e);
            },
        };
        if is_empty_or_comment(section) {
            continue;
        }
        proof {
            lemma_section_items_rest(section@, tracker.rest(), st, dims);
        }
        let result = if str_eq(section, "NODE_COORD_SECTION") {
            read_node_section(instance, tracker, dims)
        } else if str_eq(section, "SUBGROUP_SECTION") {
            read_subgroup_section(instance, tracker, dims)
        } else if str_eq(section, "CLUSTER_SECTION") {
            read_cluster_section(instance, tracker, dims)
        } else if str_eq(section, "VEHICLES_SECTION") {
            read_vehicle_section(instance, tracker, dims)
        } else {
            return process_default_section(section);
        };
        if let Err(e) = result {
            return Err(e);
        }
    }
}

/// Reads the sections that follow the header, with the counts it declared.
pub fn read_sections(instance: &mut Instance, tracker: &mut LineTracker, dims: Dimensions) -> (r: Result<
    (),
    InputError,
>)
    requires
        old(tracker).wf(),
        being_read(*old(instance)),
    ensures
        final(tracker).wf(),
        final(instance).name == old(instance).name,
        final(instance).metric == old(instance).metric,
        ids_are_positions(*final(instance)),
        r is Ok ==> being_read(*final(instance)),
        match r {
            Ok(()) => sections_outcome(old(tracker).rest(), sections_view(*old(instance)), dims) == Ok::<
                SectionsView,
                Seq<char>,
            >(sections_view(*final(instance))),
            Err(e) => sections_outcome(old(tracker).rest(), sections_view(*old(instance)), dims) == Err::<
                SectionsView,
                Seq<char>,
            >(e.message@),
        },
{
    file_read_sections(instance, tracker, dims)
}

} // verus!
