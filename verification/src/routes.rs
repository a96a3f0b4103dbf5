//! Moves on the node sequences of routes.
use crate::instance::Vehicle;
use vstd::prelude::*;

verus! {

/// Whether some vehicle starts or ends at `node_id`.
pub open spec fn is_depot(vehicles: Seq<Vehicle>, node_id: usize) -> bool {
    exists|k: int|
        0 <= k < vehicles.len() && (#[trigger] vehicles[k].start_node_id == node_id
            || vehicles[k].end_node_id == node_id)
}

/// The depots are exactly the nodes where some vehicle starts or ends.
pub proof fn lemma_depots_are_route_ends(vehicles: Seq<Vehicle>, node_id: usize)
    ensures
        is_depot(vehicles, node_id) <==> exists|k: int|
            0 <= k < vehicles.len() && ((#[trigger] vehicles[k]).start_node_id == node_id
                || vehicles[k].end_node_id == node_id),
        (forall|k: int| 0 <= k < vehicles.len() ==> (#[trigger] vehicles[k]).start_node_id != node_id
            && vehicles[k].end_node_id != node_id) ==> !is_depot(vehicles, node_id),
{
    if is_depot(vehicles, node_id) {
        let k = choose|k: int| 0 <= k < vehicles.len() && (#[trigger] vehicles[k].start_node_id == node_id
            || vehicles[k].end_node_id == node_id);
        assert(vehicles[k].start_node_id == node_id || vehicles[k].end_node_id == node_id);
    }
    if exists|k: int| 0 <= k < vehicles.len() && ((#[trigger] vehicles[k]).start_node_id == node_id
        || vehicles[k].end_node_id == node_id) {
        let k = choose|k: int| 0 <= k < vehicles.len() && ((#[trigger] vehicles[k]).start_node_id == node_id
            || vehicles[k].end_node_id == node_id);
        assert(vehicles[k].start_node_id == node_id || vehicles[k].end_node_id == node_id);
    }
}

/// Whether some vehicle starts or ends at `node_id`: such nodes are never
/// inserted into or removed from a route.
pub fn is_route_endpoint(vehicles: &[Vehicle], node_id: usize) -> (r: bool)
    ensures
        r == is_depot(vehicles@, node_id),
        r <==> exists|k: int|
            0 <= k < vehicles@.len() && ((#[trigger] vehicles@[k]).start_node_id == node_id
                || vehicles@[k].end_node_id == node_id),
{
    proof {
        lemma_depots_are_route_ends(vehicles@, node_id);
    }
    let mut k: usize = 0;
    while k < vehicles.len()
        invariant
            k <= vehicles@.len(),
            forall|j: int|
                0 <= j < k ==> !((#[trigger] vehicles@[j]).start_node_id == node_id
                    || vehicles@[j].end_node_id == node_id),
        decreases vehicles@.len() - k,
    {
        if vehicles[k].start_node_id == node_id || vehicles[k].end_node_id == node_id {
            assert(vehicles@[k as int].start_node_id == node_id || vehicles@[k as int].end_node_id == node_id);
            return true;
        }
        assert(!(vehicles@[k as int].start_node_id == node_id || vehicles@[k as int].end_node_id == node_id));
        k = k + 1;
    }
    false
}

/// The first position of `node_id` strictly between the first and the last
/// node of `path`.
pub fn interior_position(path: &[usize], node_id: usize) -> (r: Option<usize>)
    requires
        path@.len() >= 2,
    ensures
        match r {
            Some(p) => {
                &&& 1 <= p < path@.len() - 1
                &&& path@[p as int] == node_id
                &&& forall|q: int| 1 <= q < p ==> path@[q] != node_id
            },
            None => forall|q: int| 1 <= q < path@.len() - 1 ==> path@[q] != node_id,
        },
{
    let mut p: usize = 1;
    while p < path.len() - 1
        invariant
            path@.len() >= 2,
            1 <= p <= path@.len() - 1,
            forall|q: int| 1 <= q < p ==> path@[q] != node_id,
        decreases path@.len() - p,
    {
        if path[p] == node_id {
            return Some(p);
        }
        p = p + 1;
    }
    None
}

/// Takes the first interior occurrence of `node_id` out of `path` and gives
/// its neighbours before the removal; leaves `path` as it is when no node
/// strictly between the ends is `node_id`.
pub fn remove_interior(path: &mut Vec<usize>, node_id: usize) -> (r: Option<(usize, usize)>)
    requires
        old(path)@.len() >= 2,
    ensures
        match r {
            Some((prev, next)) => exists|p: int|
                {
                    &&& 1 <= p < old(path)@.len() - 1
                    &&& old(path)@[p] == node_id
                    &&& forall|q: int| 1 <= q < p ==> old(path)@[q] != node_id
                    &&& prev == old(path)@[p - 1]
                    &&& next == old(path)@[p + 1]
                    &&& final(path)@ == old(path)@.remove(p)
                },
            None => {
                &&& final(path)@ == old(path)@
                &&& forall|q: int| 1 <= q < old(path)@.len() - 1 ==> old(path)@[q] != node_id
            },
        },
{
    let len = path.len();
    let found = interior_position(path.as_slice(), node_id);
    match found {
        Some(p) => {
            assert(p + 1 < len);
            let prev = path[p - 1];
            let next = path[p + 1];
            path.remove(p);
            Some((prev, next))
        },
        None => None,
    }
}

} // verus!
