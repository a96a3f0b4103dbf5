//! The node section: `id x y [z]` per line.
use crate::error::InputError;
use crate::instance::{item_views, Node, NodeView, Point3};
use crate::parser::sections::common::{accepted_items, handle_section, item_outcome, read_items};
use crate::parser::utils::{debug_list, debug_list_text, parse_float, parse_integer, spec_parse_float, spec_parse_integer, LineTracker};
use crate::text::views;
use std::collections::HashSet;
use vstd::prelude::*;

verus! {

broadcast use vstd::string::group_string_axioms;

pub open spec fn msg_invalid_node(parts: Seq<Seq<char>>) -> Seq<char> {
    "Invalid node coordinate: "@ + debug_list_text(parts)
}

/// A node line: `id x y [z]`, with `z` zero when it is missing.
pub open spec fn spec_parse_node(parts: Seq<Seq<char>>) -> Result<NodeView, Seq<char>> {
    if parts.len() < 3 {
        Err(msg_invalid_node(parts))
    } else {
        match spec_parse_integer(parts[0]) {
            Err(m) => Err(m),
            Ok(id) => match spec_parse_float(parts[1]) {
                Err(m) => Err(m),
                Ok(x) => match spec_parse_float(parts[2]) {
                    Err(m) => Err(m),
                    Ok(y) => match spec_parse_float(
                        if parts.len() > 3 {
                            parts[3]
                        } else {
                            "0.0"@
                        },
                    ) {
                        Err(m) => Err(m),
                        Ok(z) => Ok(NodeView { id, x, y, z, parents: Set::empty() }),
                    },
                },
            },
        }
    }
}

/// The item model of the section, as a function of the item's words.
pub open spec fn node_model_fn() -> spec_fn(Seq<Seq<char>>) -> Result<(NodeView, usize), Seq<char>> {
    |p: Seq<Seq<char>>| node_model(p)
}

pub open spec fn node_model(parts: Seq<Seq<char>>) -> Result<(NodeView, usize), Seq<char>> {
    match spec_parse_node(parts) {
        Ok(v) => Ok((v, v.id)),
        Err(m) => Err(m),
    }
}

/// Reads a node line.
pub fn parse(parts: Vec<&str>) -> (r: Result<Node, InputError>)
    ensures
        item_outcome(r) == node_model(views(parts@)),
        match r {
            Ok(n) => spec_parse_node(views(parts@)) == Ok::<NodeView, Seq<char>>(n@),
            Err(e) => spec_parse_node(views(parts@)) == Err::<NodeView, Seq<char>>(e.message@),
        },
{
    let ghost pv = views(parts@);
    if parts.len() < 3 {
        let mut m = String::from_str("Invalid node coordinate: ");
        m.append(debug_list(&parts).as_str());
        assert(m@ =~= msg_invalid_node(pv));
        return Err(InputError::new(m));
    }
    assert(pv[0] == parts@[0]@ && pv[1] == parts@[1]@ && pv[2] == parts@[2]@);
    let id = parse_integer(parts[0])?;
    let x = parse_float(parts[1])?;
    let y = parse_float(parts[2])?;
    let z_text = if parts.len() > 3 {
        assert(pv[3] == parts@[3]@);
        parts[3]
    } else {
        "0.0"
    };
    let z = parse_float(z_text)?;
    let n = Node { id, point: Point3 { x, y, z }, parent_subgroup_ids: HashSet::new() };
    assert(n@.parents =~= Set::<usize>::empty());
    Ok(n)
}


/// Reads the node lines until `nodes` holds `count` nodes.
pub fn process(tracker: &mut LineTracker, nodes: &mut Vec<Node>, count: usize) -> (r: Result<(), InputError>)
    requires
        old(tracker).wf(),
        forall|i: int| 0 <= i < old(nodes)@.len() ==> (#[trigger] old(nodes)@[i]).id == i,
    ensures
        final(tracker).wf(),
        r is Ok ==> final(tracker).rest().len() <= old(tracker).rest().len(),
        final(nodes)@.len() >= old(nodes)@.len(),
        final(nodes)@.subrange(0, old(nodes)@.len() as int) == old(nodes)@,
        forall|i: int| 0 <= i < final(nodes)@.len() ==> (#[trigger] final(nodes)@[i]).id == i,
        ({
            let n0 = old(nodes)@.len();
            let target: nat = if n0 < count { count as nat } else { n0 };
            item_views(final(nodes)@.subrange(n0 as int, final(nodes)@.len() as int))
                == accepted_items(old(tracker).rest(), n0, (target - n0) as nat, node_model_fn(), "Node"@)
        }),
        ({
            let n0 = old(nodes)@.len();
            let target: nat = if n0 < count { count as nat } else { n0 };
            let expected = read_items(old(tracker).rest(), n0, (target - n0) as nat, node_model_fn(), "Node"@);
            match r {
                Ok(()) => {
                    &&& final(nodes)@.len() == target
                    &&& expected.0 == Ok::<Seq<NodeView>, Seq<char>>(crate::instance::item_views(final(nodes)@.subrange(n0 as int, target as int)))
                    &&& final(tracker).rest() == expected.1
                },
                Err(e) => expected.0 == Err::<Seq<NodeView>, Seq<char>>(e.message@),
            }
        }),
{
    let parser = |parts: Vec<&str>| -> (r: Result<Node, InputError>)
        ensures
            item_outcome(r) == node_model(views(parts@)),
        { parse(parts) };
    handle_section(tracker, nodes, count, "Node", parser, Ghost(node_model_fn()))
}

} // verus!
