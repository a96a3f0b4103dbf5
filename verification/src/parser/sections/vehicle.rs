//! The vehicle section: `id budget start end` per line.
use crate::error::InputError;
use crate::instance::{item_views, Node, Vehicle, VehicleView};
use crate::parser::sections::common::{accepted_items, handle_section, item_outcome, parse_refs, read_items, spec_parse_refs};
use crate::parser::utils::{debug_list, debug_list_text, parse_float, parse_integer, spec_parse_float, spec_parse_integer, LineTracker};
use crate::parser::validator::{ids_of, spec_validate_item_id, validate_item_id};
use crate::text::views;
use vstd::prelude::*;

verus! {

broadcast use vstd::string::group_string_axioms;

pub open spec fn msg_invalid_vehicle(parts: Seq<Seq<char>>) -> Seq<char> {
    "Invalid vehicle data: "@ + debug_list_text(parts)
}

/// A vehicle line: `id budget start end`, with both nodes among `node_ids`.
pub open spec fn spec_parse_vehicle(parts: Seq<Seq<char>>, node_ids: Seq<usize>) -> Result<
    VehicleView,
    Seq<char>,
> {
    if parts.len() < 4 {
        Err(msg_invalid_vehicle(parts))
    } else {
        match spec_parse_integer(parts[0]) {
            Err(m) => Err(m),
            Ok(id) => match spec_parse_float(parts[1]) {
                Err(m) => Err(m),
                Ok(budget) => match spec_parse_integer(parts[2]) {
                    Err(m) => Err(m),
                    Ok(start) => match spec_parse_integer(parts[3]) {
                        Err(m) => Err(m),
                        Ok(end) => match spec_validate_item_id("Node"@, node_ids, start) {
                            Err(m) => Err(m),
                            Ok(_) => match spec_validate_item_id("Node"@, node_ids, end) {
                                Err(m) => Err(m),
                                Ok(_) => Ok(
                                    VehicleView {
                                        id,
                                        budget,
                                        start_node_id: start,
                                        end_node_id: end,
                                    },
                                ),
                            },
                        },
                    },
                },
            },
        }
    }
}

/// The item model of the section, as a function of the item's words.
pub open spec fn vehicle_model_fn(ids: Seq<usize>) -> spec_fn(Seq<Seq<char>>) -> Result<(VehicleView, usize), Seq<char>> {
    |p: Seq<Seq<char>>| vehicle_model(p, ids)
}

pub open spec fn vehicle_model(parts: Seq<Seq<char>>, node_ids: Seq<usize>) -> Result<
    (VehicleView, usize),
    Seq<char>,
> {
    match spec_parse_vehicle(parts, node_ids) {
        Ok(v) => Ok((v, v.id)),
        Err(m) => Err(m),
    }
}

/// Reads a vehicle line; its start and end nodes must be in `nodes`.
pub fn parse(parts: Vec<&str>, nodes: &[Node]) -> (r: Result<Vehicle, InputError>)
    ensures
        item_outcome(r) == vehicle_model(views(parts@), ids_of(nodes@)),
        match r {
            Ok(v) => spec_parse_vehicle(views(parts@), ids_of(nodes@)) == Ok::<VehicleView, Seq<char>>(v@),
            Err(e) => spec_parse_vehicle(views(parts@), ids_of(nodes@)) == Err::<VehicleView, Seq<char>>(e.message@),
        },
{
    let ghost pv = views(parts@);
    if parts.len() < 4 {
        let mut m = String::from_str("Invalid vehicle data: ");
        m.append(debug_list(&parts).as_str());
        assert(m@ =~= msg_invalid_vehicle(pv));
        return Err(InputError::new(m));
    }
    assert(pv[0] == parts@[0]@ && pv[1] == parts@[1]@ && pv[2] == parts@[2]@ && pv[3] == parts@[3]@);
    let id = parse_integer(parts[0])?;
    let budget = parse_float(parts[1])?;
    let start_node_id = parse_integer(parts[2])?;
    let end_node_id = parse_integer(parts[3])?;
    validate_item_id("Node", nodes, start_node_id)?;
    validate_item_id("Node", nodes, end_node_id)?;
    Ok(Vehicle { id, budget, start_node_id, end_node_id })
}

/// Reads the vehicle lines until `vehicles` holds `count` vehicles.
pub fn process(tracker: &mut LineTracker, vehicles: &mut Vec<Vehicle>, count: usize, nodes: &[Node]) -> (r: Result<(), InputError>)
    requires
        old(tracker).wf(),
        forall|i: int| 0 <= i < old(vehicles)@.len() ==> (#[trigger] old(vehicles)@[i]).id == i,
    ensures
        final(tracker).wf(),
        r is Ok ==> final(tracker).rest().len() <= old(tracker).rest().len(),
        final(vehicles)@.len() >= old(vehicles)@.len(),
        final(vehicles)@.subrange(0, old(vehicles)@.len() as int) == old(vehicles)@,
        forall|i: int| 0 <= i < final(vehicles)@.len() ==> (#[trigger] final(vehicles)@[i]).id == i,
        ({
            let n0 = old(vehicles)@.len();
            let target: nat = if n0 < count { count as nat } else { n0 };
            item_views(final(vehicles)@.subrange(n0 as int, final(vehicles)@.len() as int))
                == accepted_items(old(tracker).rest(), n0, (target - n0) as nat, vehicle_model_fn(ids_of(nodes@)), "Vehicle"@)
        }),
        ({
            let n0 = old(vehicles)@.len();
            let target: nat = if n0 < count { count as nat } else { n0 };
            let expected = read_items(old(tracker).rest(), n0, (target - n0) as nat, vehicle_model_fn(ids_of(nodes@)), "Vehicle"@);
            match r {
                Ok(()) => {
                    &&& final(vehicles)@.len() == target
                    &&& expected.0 == Ok::<Seq<VehicleView>, Seq<char>>(item_views(final(vehicles)@.subrange(n0 as int, target as int)))
                    &&& final(tracker).rest() == expected.1
                },
                Err(e) => expected.0 == Err::<Seq<VehicleView>, Seq<char>>(e.message@),
            }
        }),
{
    let parser = |parts: Vec<&str>| -> (r: Result<Vehicle, InputError>)
        ensures
            item_outcome(r) == vehicle_model(views(parts@), ids_of(nodes@)),
        { parse(parts, nodes) };
    handle_section(tracker, vehicles, count, "Vehicle", parser, Ghost(vehicle_model_fn(ids_of(nodes@))))
}

} // verus!
