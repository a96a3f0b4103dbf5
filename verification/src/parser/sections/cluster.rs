//! The cluster section: `id subgroup...` per line.
use crate::error::InputError;
use crate::instance::{item_views, Cluster, ClusterView, Subgroup};
use crate::parser::sections::common::{accepted_items, handle_section, item_outcome, parse_refs, read_items, spec_parse_refs};
use crate::parser::utils::{debug_list, debug_list_text, parse_float, parse_integer, spec_parse_float, spec_parse_integer, LineTracker};
use crate::parser::validator::{ids_of, spec_validate_item_id, validate_item_id};
use crate::text::views;
use vstd::prelude::*;

verus! {

broadcast use vstd::string::group_string_axioms;

/// A cluster line: `id subgroup...`, with subgroups among `subgroup_ids`.
pub open spec fn spec_parse_cluster(parts: Seq<Seq<char>>, subgroup_ids: Seq<usize>) -> Result<
    ClusterView,
    Seq<char>,
> {
    if parts.len() < 2 {
        Err("Invalid cluster data"@)
    } else {
        match spec_parse_integer(parts[0]) {
            Err(m) => Err(m),
            Ok(id) => match spec_parse_refs(
                parts.subrange(1, parts.len() as int),
                "Subgroup"@,
                subgroup_ids,
            ) {
                Err(m) => Err(m),
                Ok(refs) => Ok(ClusterView { id, subgroup_ids: refs }),
            },
        }
    }
}

/// The item model of the section, as a function of the item's words.
pub open spec fn cluster_model_fn(ids: Seq<usize>) -> spec_fn(Seq<Seq<char>>) -> Result<(ClusterView, usize), Seq<char>> {
    |p: Seq<Seq<char>>| cluster_model(p, ids)
}

pub open spec fn cluster_model(parts: Seq<Seq<char>>, subgroup_ids: Seq<usize>) -> Result<
    (ClusterView, usize),
    Seq<char>,
> {
    match spec_parse_cluster(parts, subgroup_ids) {
        Ok(v) => Ok((v, v.id)),
        Err(m) => Err(m),
    }
}

/// Reads a cluster line; its subgroups must be in `subgroups`.
pub fn parse(parts: Vec<&str>, subgroups: &[Subgroup]) -> (r: Result<Cluster, InputError>)
    ensures
        item_outcome(r) == cluster_model(views(parts@), ids_of(subgroups@)),
        match r {
            Ok(c) => spec_parse_cluster(views(parts@), ids_of(subgroups@)) == Ok::<ClusterView, Seq<char>>(c@),
            Err(e) => spec_parse_cluster(views(parts@), ids_of(subgroups@)) == Err::<ClusterView, Seq<char>>(e.message@),
        },
{
    let ghost pv = views(parts@);
    if parts.len() < 2 {
        return Err(InputError::new(String::from_str("Invalid cluster data")));
    }
    assert(pv[0] == parts@[0]@);
    let id = parse_integer(parts[0])?;
    let subgroup_ids = parse_refs(&parts, 1, "Subgroup", subgroups)?;
    Ok(Cluster { id, subgroup_ids })
}

/// Reads the cluster lines until `clusters` holds `count` clusters.
pub fn process(tracker: &mut LineTracker, clusters: &mut Vec<Cluster>, count: usize, subgroups: &[Subgroup]) -> (r: Result<(), InputError>)
    requires
        old(tracker).wf(),
        forall|i: int| 0 <= i < old(clusters)@.len() ==> (#[trigger] old(clusters)@[i]).id == i,
    ensures
        final(tracker).wf(),
        r is Ok ==> final(tracker).rest().len() <= old(tracker).rest().len(),
        final(clusters)@.len() >= old(clusters)@.len(),
        final(clusters)@.subrange(0, old(clusters)@.len() as int) == old(clusters)@,
        forall|i: int| 0 <= i < final(clusters)@.len() ==> (#[trigger] final(clusters)@[i]).id == i,
        ({
            let n0 = old(clusters)@.len();
            let target: nat = if n0 < count { count as nat } else { n0 };
            item_views(final(clusters)@.subrange(n0 as int, final(clusters)@.len() as int))
                == accepted_items(old(tracker).rest(), n0, (target - n0) as nat, cluster_model_fn(ids_of(subgroups@)), "Cluster"@)
        }),
        ({
            let n0 = old(clusters)@.len();
            let target: nat = if n0 < count { count as nat } else { n0 };
            let expected = read_items(old(tracker).rest(), n0, (target - n0) as nat, cluster_model_fn(ids_of(subgroups@)), "Cluster"@);
            match r {
                Ok(()) => {
                    &&& final(clusters)@.len() == target
                    &&& expected.0 == Ok::<Seq<ClusterView>, Seq<char>>(item_views(final(clusters)@.subrange(n0 as int, target as int)))
                    &&& final(tracker).rest() == expected.1
                },
                Err(e) => expected.0 == Err::<Seq<ClusterView>, Seq<char>>(e.message@),
            }
        }),
{
    let parser = |parts: Vec<&str>| -> (r: Result<Cluster, InputError>)
        ensures
            item_outcome(r) == cluster_model(views(parts@), ids_of(subgroups@)),
        { parse(parts, subgroups) };
    handle_section(tracker, clusters, count, "Cluster", parser, Ghost(cluster_model_fn(ids_of(subgroups@))))
}

} // verus!
