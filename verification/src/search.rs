//! The bookkeeping of the neighbourhood search: which nodes are visited,
//! which subgroup holds each cluster, and which subgroups are in the tour.
use crate::instance::{clone_id_set, vehicles_in_range, Instance};
use std::collections::{HashMap, HashSet};
use vstd::prelude::*;

verus! {

broadcast use vstd::std_specs::hash::group_hash_axioms;

/// The elements of a set of ids, each once.
pub fn set_elements(s: &HashSet<usize>) -> (r: Vec<usize>)
    ensures
        r@.to_set() == s@,
        r@.no_duplicates(),
{
    let mut out: Vec<usize> = Vec::new();
    let ghost full = vstd::std_specs::iter::IteratorSpec::remaining(&s.iter()).unref();
    for x in it: s.iter()
        invariant
            it.seq().unref() == full,
            out@ == full.take(it.index()),
    {
        out.push(*x);
        proof {
            assert(out@ =~= full.take(it.index() + 1));
        }
    }
    proof {
        assert(out@ =~= full);
    }
    out
}

/// What the search keeps track of.
pub struct SearchState {
    pub visited_nodes: HashSet<usize>,
    pub cluster_locks: HashMap<usize, usize>,
    pub subgroup_nodes_count: HashMap<usize, usize>,
}

/// The search state as plain values: the visited nodes, the subgroup that
/// holds each locked cluster, and the node count of each subgroup in the tour.
pub struct SearchStateView {
    pub visited: Set<usize>,
    pub locks: Map<usize, usize>,
    pub counts: Map<usize, usize>,
}

impl View for SearchState {
    type V = SearchStateView;

    open spec fn view(&self) -> SearchStateView {
        SearchStateView {
            visited: self.visited_nodes@,
            locks: self.cluster_locks@,
            counts: self.subgroup_nodes_count@,
        }
    }
}

impl Default for SearchState {
    fn default() -> (r: Self)
        ensures
            r@.visited == Set::<usize>::empty(),
            r@.locks == Map::<usize, usize>::empty(),
            r@.counts == Map::<usize, usize>::empty(),
    {
        SearchState {
            visited_nodes: HashSet::new(),
            cluster_locks: HashMap::new(),
            subgroup_nodes_count: HashMap::new(),
        }
    }
}

impl Clone for SearchState {
    fn clone(&self) -> (r: Self)
        ensures
            r@ == self@,
    {
        SearchState {
            visited_nodes: clone_id_set(&self.visited_nodes),
            cluster_locks: self.cluster_locks.clone(),
            subgroup_nodes_count: self.subgroup_nodes_count.clone(),
        }
    }
}

impl SearchState {
    /// Whether subgroup `subgroup_id` may enter the tour as the one that
    /// serves cluster `cluster_id`: the cluster is free or held by it.
    pub fn allows(&self, cluster_id: usize, subgroup_id: usize) -> (r: bool)
        ensures
            r == !(self@.locks.contains_key(cluster_id) && self@.locks[cluster_id] != subgroup_id),
    {
        match self.cluster_locks.get(&cluster_id) {
            Some(locked) => *locked == subgroup_id,
            None => true,
        }
    }

    /// Whether subgroup `subgroup_id` is in the tour.
    pub fn is_active(&self, subgroup_id: usize) -> (r: bool)
        ensures
            r == self@.counts.contains_key(subgroup_id),
    {
        self.subgroup_nodes_count.contains_key(&subgroup_id)
    }

    /// Records that node `node_id` is visited.
    pub fn visit(&mut self, node_id: usize)
        ensures
            final(self)@.visited == old(self)@.visited.insert(node_id),
            final(self)@.locks == old(self)@.locks,
            final(self)@.counts == old(self)@.counts,
    {
        self.visited_nodes.insert(node_id);
    }

    /// Records that node `node_id` is no longer visited.
    pub fn leave(&mut self, node_id: usize)
        ensures
            final(self)@.visited == old(self)@.visited.remove(node_id),
            final(self)@.locks == old(self)@.locks,
            final(self)@.counts == old(self)@.counts,
    {
        self.visited_nodes.remove(&node_id);
    }

    /// Puts subgroup `subgroup_id`, of `node_count` nodes, in the tour as the
    /// one that serves cluster `cluster_id`.
    pub fn enter_subgroup(&mut self, cluster_id: usize, subgroup_id: usize, node_count: usize)
        ensures
            final(self)@.visited == old(self)@.visited,
            final(self)@.locks == old(self)@.locks.insert(cluster_id, subgroup_id),
            final(self)@.counts == old(self)@.counts.insert(subgroup_id, node_count),
    {
        self.cluster_locks.insert(cluster_id, subgroup_id);
        self.subgroup_nodes_count.insert(subgroup_id, node_count);
    }

    /// Takes subgroup `subgroup_id` out of the tour and frees cluster
    /// `cluster_id`.
    pub fn drop_subgroup(&mut self, cluster_id: usize, subgroup_id: usize)
        ensures
            final(self)@.visited == old(self)@.visited,
            final(self)@.locks == old(self)@.locks.remove(cluster_id),
            final(self)@.counts == old(self)@.counts.remove(subgroup_id),
    {
        self.cluster_locks.remove(&cluster_id);
        self.subgroup_nodes_count.remove(&subgroup_id);
    }

    /// The subgroups among the first `count` that are not in the tour, in
    /// increasing order.
    pub fn inactive_subgroups(&self, count: usize) -> (r: Vec<usize>)
        ensures
            forall|i: int, j: int| 0 <= i < j < r@.len() ==> r@[i] < r@[j],
            forall|x: usize| #[trigger] r@.contains(x) <==> (x < count && !self@.counts.contains_key(x)),
    {
        let mut out: Vec<usize> = Vec::new();
        let mut k: usize = 0;
        while k < count
            invariant
                k <= count,
                forall|i: int, j: int| 0 <= i < j < out@.len() ==> out@[i] < out@[j],
                forall|i: int| 0 <= i < out@.len() ==> out@[i] < k,
                forall|x: usize| #[trigger] out@.contains(x) <==> (x < k && !self@.counts.contains_key(x)),
            decreases count - k,
        {
            if !self.subgroup_nodes_count.contains_key(&k) {
                let ghost before = out@;
                out.push(k);
                proof {
                    assert forall|x: usize| #[trigger] out@.contains(x) <==> (x < k + 1 && !self@.counts.contains_key(x)) by {
                        if x == k {
                            assert(out@[out@.len() - 1] == k);
                        }
                        if out@.contains(x) && x != k {
                            let w = choose|w: int| 0 <= w < out@.len() && out@[w] == x;
                            assert(before[w] == x);
                        }
                        if before.contains(x) {
                            let w = choose|w: int| 0 <= w < before.len() && before[w] == x;
                            assert(out@[w] == x);
                        }
                    }
                }
            } else {
                proof {
                    assert forall|x: usize| #[trigger] out@.contains(x) <==> (x < k + 1 && !self@.counts.contains_key(x)) by {
                        if out@.contains(x) {
                            let w = choose|w: int| 0 <= w < out@.len() && out@[w] == x;
                            assert(out@[w] < k);
                        }
                    }
                }
            }
            k = k + 1;
        }
        out
    }
}

/// Taking a subgroup out of the tour undoes putting it in: when its cluster
/// was free and it was not in the tour, `drop_subgroup` after
/// `enter_subgroup` gives back the locks and counts of before.
pub proof fn lemma_drop_undoes_enter(st: SearchStateView, cluster_id: usize, subgroup_id: usize, node_count: usize)
    requires
        !st.locks.contains_key(cluster_id),
        !st.counts.contains_key(subgroup_id),
    ensures
        st.locks.insert(cluster_id, subgroup_id).remove(cluster_id) == st.locks,
        st.counts.insert(subgroup_id, node_count).remove(subgroup_id) == st.counts,
{
    assert(st.locks.insert(cluster_id, subgroup_id).remove(cluster_id) =~= st.locks);
    assert(st.counts.insert(subgroup_id, node_count).remove(subgroup_id) =~= st.counts);
}

/// Once subgroup `subgroup_id` holds cluster `cluster_id`, the cluster admits
/// it and no other subgroup.
pub proof fn lemma_enter_locks_cluster(st: SearchStateView, cluster_id: usize, subgroup_id: usize, other: usize)
    ensures
        ({
            let locks = st.locks.insert(cluster_id, subgroup_id);
            !(locks.contains_key(cluster_id) && locks[cluster_id] != other) <==> other == subgroup_id
        }),
{
}

/// The nodes where the first `upto` vehicles start or end.
pub open spec fn depot_nodes(instance: Instance, upto: int) -> Set<usize> {
    Set::new(
        |n: usize|
            exists|k: int|
                0 <= k < upto && (#[trigger] instance.vehicles@[k].start_node_id == n
                    || instance.vehicles@[k].end_node_id == n),
    )
}

/// The subgroups that hold the start node of one of the first `upto` vehicles.
pub open spec fn start_parents(instance: Instance, upto: int) -> Set<usize> {
    Set::new(
        |sg: usize|
            exists|k: int|
                0 <= k < upto && #[trigger] instance.nodes@[instance.vehicles@[k].start_node_id as int].parent_subgroup_ids@.contains(
                    sg,
                ),
    )
}

/// The clusters of the subgroups of `subgroups`.
pub open spec fn clusters_of(instance: Instance, subgroups: Set<usize>) -> Set<usize> {
    Set::new(
        |c: usize|
            exists|sg: usize| subgroups.contains(sg) && #[trigger] instance.subgroups@[sg as int].parent_cluster_id == c,
    )
}

/// A state in which the subgroups of `active` are in the tour, each with
/// one node, and each of their clusters is held by one of them.
pub open spec fn holds_start_subgroups(instance: Instance, st: SearchStateView, active: Set<usize>) -> bool {
    &&& st.counts.dom() == active
    &&& forall|sg: usize| #[trigger] st.counts.contains_key(sg) ==> st.counts[sg] == 1
    &&& st.locks.dom() == clusters_of(instance, active)
    &&& forall|c: usize| #[trigger] st.locks.contains_key(c) ==> active.contains(st.locks[c])
        && instance.subgroups@[st.locks[c] as int].parent_cluster_id == c
}

/// Every node lists existing subgroups as parents.
pub open spec fn parents_in_range(instance: Instance) -> bool {
    forall|i: int, sg: usize|
        0 <= i < instance.nodes@.len() && #[trigger] instance.nodes@[i].parent_subgroup_ids@.contains(sg)
            ==> sg < instance.subgroups@.len()
}

/// The state a search starts from: every vehicle's start and end node is
/// visited, and each subgroup that holds a start node is in the tour and
/// holds its cluster.
pub fn initial_search_state(instance: &Instance) -> (r: SearchState)
    requires
        vehicles_in_range(*instance),
        parents_in_range(*instance),
    ensures
        r@.visited == depot_nodes(*instance, instance.vehicles@.len() as int),
        holds_start_subgroups(*instance, r@, start_parents(*instance, instance.vehicles@.len() as int)),
{
    let mut state = SearchState::default();
    let mut k: usize = 0;
    proof {
        assert(state@.visited =~= depot_nodes(*instance, 0));
        assert(start_parents(*instance, 0) =~= Set::<usize>::empty());
        assert(clusters_of(*instance, Set::<usize>::empty()) =~= Set::<usize>::empty());
    }
    while k < instance.vehicles.len()
        invariant
            k <= instance.vehicles@.len(),
            vehicles_in_range(*instance),
            parents_in_range(*instance),
            state@.visited == depot_nodes(*instance, k as int),
            holds_start_subgroups(*instance, state@, start_parents(*instance, k as int)),
        decreases instance.vehicles@.len() - k,
    {
        let vehicle = &instance.vehicles[k];
        let start = vehicle.start_node_id;
        let end = vehicle.end_node_id;
        state.visit(start);
        state.visit(end);
        proof {
            assert(state@.visited =~= depot_nodes(*instance, k + 1)) by {
                assert forall|n: usize| #[trigger] depot_nodes(*instance, k + 1).contains(n) implies state@.visited.contains(n) by {
                    let j = choose|j: int| 0 <= j < k + 1 && (#[trigger] instance.vehicles@[j].start_node_id == n
                        || instance.vehicles@[j].end_node_id == n);
                    if j < k {
                        assert(depot_nodes(*instance, k as int).contains(n));
                    }
                }
                assert forall|n: usize| state@.visited.contains(n) implies #[trigger] depot_nodes(*instance, k + 1).contains(n) by {
                    if n != start && n != end {
                        assert(depot_nodes(*instance, k as int).contains(n));
                        let j = choose|j: int| 0 <= j < k && (#[trigger] instance.vehicles@[j].start_node_id == n
                            || instance.vehicles@[j].end_node_id == n);
                        assert(0 <= j < k + 1);
                    } else {
                        assert(instance.vehicles@[k as int].start_node_id == start);
                    }
                }
            }
        }
        let parents = &instance.nodes[start].parent_subgroup_ids;
        let ghost before = start_parents(*instance, k as int);
        let ghost full = vstd::std_specs::iter::IteratorSpec::remaining(&parents.iter()).unref();
        proof {
            assert(full.take(0) =~= Seq::<usize>::empty());
            assert(Seq::<usize>::empty().to_set() =~= Set::<usize>::empty());
            assert(before + Set::<usize>::empty() =~= before);
        }
        for sg_ref in it: parents.iter()
            invariant
                it.seq().unref() == full,
                full.to_set() == parents@,
                k < instance.vehicles@.len(),
                start == instance.vehicles@[k as int].start_node_id,
                start < instance.nodes@.len(),
                *parents == instance.nodes@[start as int].parent_subgroup_ids,
                parents_in_range(*instance),
                state@.visited == depot_nodes(*instance, k + 1),
                holds_start_subgroups(*instance, state@, before + full.take(it.index()).to_set()),
        {
            let sg = *sg_ref;
            let ghost done = before + full.take(it.index()).to_set();
            assert(full[it.index()] == sg);
            assert(parents@.contains(sg));
            let c = instance.subgroups[sg].parent_cluster_id;
            state.enter_subgroup(c, sg, 1);
            proof {
                let now = before + full.take(it.index() + 1).to_set();
                assert(full.take(it.index() + 1) =~= full.take(it.index()).push(sg));
                assert(now =~= done.insert(sg)) by {
                    full.take(it.index()).lemma_push_to_set_commute(sg);
                }
                assert(state@.counts.dom() =~= now);
                assert(state@.locks.dom() =~= clusters_of(*instance, now)) by {
                    assert forall|c2: usize| #[trigger] clusters_of(*instance, now).contains(c2) implies state@.locks.contains_key(c2) by {
                        let w = choose|w: usize| now.contains(w) && #[trigger] instance.subgroups@[w as int].parent_cluster_id == c2;
                        if w != sg {
                            assert(clusters_of(*instance, done).contains(c2));
                        }
                    }
                    assert forall|c2: usize| state@.locks.contains_key(c2) implies #[trigger] clusters_of(*instance, now).contains(c2) by {
                        if c2 != c {
                            assert(clusters_of(*instance, done).contains(c2));
                            let w = choose|w: usize| done.contains(w) && #[trigger] instance.subgroups@[w as int].parent_cluster_id == c2;
                            assert(now.contains(w));
                        }
                    }
                }
            }
        }
        proof {
            assert(full.take(full.len() as int) =~= full);
            let now = before + full.to_set();
            assert(now =~= start_parents(*instance, k + 1)) by {
                assert forall|sg: usize| #[trigger] start_parents(*instance, k + 1).contains(sg) implies now.contains(sg) by {
                    let j = choose|j: int| 0 <= j < k + 1 && #[trigger] instance.nodes@[instance.vehicles@[j].start_node_id as int].parent_subgroup_ids@.contains(sg);
                    if j < k {
                        assert(before.contains(sg));
                    }
                }
                assert forall|sg: usize| now.contains(sg) implies #[trigger] start_parents(*instance, k + 1).contains(sg) by {
                    if before.contains(sg) {
                        let j = choose|j: int| 0 <= j < k && #[trigger] instance.nodes@[instance.vehicles@[j].start_node_id as int].parent_subgroup_ids@.contains(sg);
                        assert(0 <= j < k + 1);
                    } else {
                        assert(instance.nodes@[instance.vehicles@[k as int].start_node_id as int].parent_subgroup_ids@.contains(sg));
                    }
                }
            }
        }
        k = k + 1;
    }
    state
}

} // verus!
