//! The subgroup section: `id profit node...` per line.
use crate::error::InputError;
use crate::instance::{item_views, Node, Subgroup, SubgroupView};
use crate::parser::sections::common::{accepted_items, handle_section, item_outcome, parse_refs, read_items, spec_parse_refs};
use crate::parser::utils::{debug_list, debug_list_text, parse_float, parse_integer, spec_parse_float, spec_parse_integer, LineTracker};
use crate::parser::validator::{ids_of, spec_validate_item_id, validate_item_id};
use crate::text::views;
use vstd::prelude::*;

verus! {

broadcast use vstd::string::group_string_axioms;

pub open spec fn msg_invalid_subgroup(parts: Seq<Seq<char>>) -> Seq<char> {
    "Invalid subgroup data: "@ + debug_list_text(parts)
}

/// A subgroup line: `id profit node...`, with nodes among `node_ids`.
pub open spec fn spec_parse_subgroup(parts: Seq<Seq<char>>, node_ids: Seq<usize>) -> Result<
    SubgroupView,
    Seq<char>,
> {
    if parts.len() < 2 {
        Err(msg_invalid_subgroup(parts))
    } else {
        match spec_parse_integer(parts[0]) {
            Err(m) => Err(m),
            Ok(id) => match spec_parse_float(parts[1]) {
                Err(m) => Err(m),
                Ok(profit) => match spec_parse_refs(
                    parts.subrange(2, parts.len() as int),
                    "Node"@,
                    node_ids,
                ) {
                    Err(m) => Err(m),
                    Ok(refs) => Ok(
                        SubgroupView { id, profit, node_ids: refs, parent_cluster_id: 0 },
                    ),
                },
            },
        }
    }
}

/// The item model of the section, as a function of the item's words.
pub open spec fn subgroup_model_fn(ids: Seq<usize>) -> spec_fn(Seq<Seq<char>>) -> Result<(SubgroupView, usize), Seq<char>> {
    |p: Seq<Seq<char>>| subgroup_model(p, ids)
}

pub open spec fn subgroup_model(parts: Seq<Seq<char>>, node_ids: Seq<usize>) -> Result<
    (SubgroupView, usize),
    Seq<char>,
> {
    match spec_parse_subgroup(parts, node_ids) {
        Ok(v) => Ok((v, v.id)),
        Err(m) => Err(m),
    }
}

/// Reads a subgroup line; its nodes must be in `nodes`.
pub fn parse(parts: Vec<&str>, nodes: &[Node]) -> (r: Result<Subgroup, InputError>)
    ensures
        item_outcome(r) == subgroup_model(views(parts@), ids_of(nodes@)),
        match r {
            Ok(g) => spec_parse_subgroup(views(parts@), ids_of(nodes@)) == Ok::<SubgroupView, Seq<char>>(g@),
            Err(e) => spec_parse_subgroup(views(parts@), ids_of(nodes@)) == Err::<SubgroupView, Seq<char>>(e.message@),
        },
{
    let ghost pv = views(parts@);
    if parts.len() < 2 {
        let mut m = String::from_str("Invalid subgroup data: ");
        m.append(debug_list(&parts).as_str());
        assert(m@ =~= msg_invalid_subgroup(pv));
        return Err(InputError::new(m));
    }
    assert(pv[0] == parts@[0]@ && pv[1] == parts@[1]@);
    let id = parse_integer(parts[0])?;
    let profit = parse_float(parts[1])?;
    let node_ids = parse_refs(&parts, 2, "Node", nodes)?;
    Ok(Subgroup { id, profit, node_ids, parent_cluster_id: 0 })
}

/// Reads the subgroup lines until `subgroups` holds `count` subgroups.
pub fn process(tracker: &mut LineTracker, subgroups: &mut Vec<Subgroup>, count: usize, nodes: &[Node]) -> (r: Result<(), InputError>)
    requires
        old(tracker).wf(),
        forall|i: int| 0 <= i < old(subgroups)@.len() ==> (#[trigger] old(subgroups)@[i]).id == i,
    ensures
        final(tracker).wf(),
        r is Ok ==> final(tracker).rest().len() <= old(tracker).rest().len(),
        final(subgroups)@.len() >= old(subgroups)@.len(),
        final(subgroups)@.subrange(0, old(subgroups)@.len() as int) == old(subgroups)@,
        forall|i: int| 0 <= i < final(subgroups)@.len() ==> (#[trigger] final(subgroups)@[i]).id == i,
        ({
            let n0 = old(subgroups)@.len();
            let target: nat = if n0 < count { count as nat } else { n0 };
            item_views(final(subgroups)@.subrange(n0 as int, final(subgroups)@.len() as int))
                == accepted_items(old(tracker).rest(), n0, (target - n0) as nat, subgroup_model_fn(ids_of(nodes@)), "Subgroup"@)
        }),
        ({
            let n0 = old(subgroups)@.len();
            let target: nat = if n0 < count { count as nat } else { n0 };
            let expected = read_items(old(tracker).rest(), n0, (target - n0) as nat, subgroup_model_fn(ids_of(nodes@)), "Subgroup"@);
            match r {
                Ok(()) => {
                    &&& final(subgroups)@.len() == target
                    &&& expected.0 == Ok::<Seq<SubgroupView>, Seq<char>>(item_views(final(subgroups)@.subrange(n0 as int, target as int)))
                    &&& final(tracker).rest() == expected.1
                },
                Err(e) => expected.0 == Err::<Seq<SubgroupView>, Seq<char>>(e.message@),
            }
        }),
{
    let parser = |parts: Vec<&str>| -> (r: Result<Subgroup, InputError>)
        ensures
            item_outcome(r) == subgroup_model(views(parts@), ids_of(nodes@)),
        { parse(parts, nodes) };
    handle_section(tracker, subgroups, count, "Subgroup", parser, Ghost(subgroup_model_fn(ids_of(nodes@))))
}

} // verus!
