//! The problem instance: nodes, subgroups of nodes, clusters of subgroups and
//! vehicles. Real-valued data (coordinates, profits, budgets) is held as the
//! validated decimal text it was read from.
use std::collections::HashSet;
use vstd::prelude::*;

verus! {

broadcast use vstd::std_specs::hash::group_hash_axioms;

/// The distance function of an instance.
#[derive(Debug, Clone, Copy, PartialEq, Eq, Structural)]
pub enum Metric {
    Euc2d,
    Euc3d,
    Man2d,
    Man3d,
}

impl Default for Metric {
    fn default() -> (m: Self)
        ensures
            m == Metric::Euc3d,
    {
        Metric::Euc3d
    }
}

/// The name under which a metric is shown.
pub open spec fn metric_name(m: Metric) -> Seq<char> {
    match m {
        Metric::Euc2d => "Euc2d"@,
        Metric::Euc3d => "Euc3d"@,
        Metric::Man2d => "Man2d"@,
        Metric::Man3d => "Man3d"@,
    }
}

impl Metric {
    /// The metric's name, as `Debug` shows it.
    pub fn to_string(&self) -> (s: String)
        ensures
            s@ == metric_name(*self),
    {
        match self {
            Metric::Euc2d => String::from_str("Euc2d"),
            Metric::Euc3d => String::from_str("Euc3d"),
            Metric::Man2d => String::from_str("Man2d"),
            Metric::Man3d => String::from_str("Man3d"),
        }
    }
}

/// A real number, held as a floating point literal that `str::parse::<f64>`
/// accepts.
#[derive(Debug, Clone)]
pub struct RealLiteral {
    text: String,
}

impl View for RealLiteral {
    type V = Seq<char>;

    closed spec fn view(&self) -> Seq<char> {
        self.text@
    }
}

impl RealLiteral {
    /// Wraps a text already known to be a literal.
    pub(crate) fn from_text(text: String) -> (r: Self)
        ensures
            r@ == text@,
    {
        RealLiteral { text }
    }

    pub fn as_str(&self) -> (s: &str)
        ensures
            s@ == self@,
    {
        self.text.as_str()
    }
}

impl Default for RealLiteral {
    /// Zero.
    fn default() -> (r: Self)
        ensures
            r@ == "0.0"@,
    {
        RealLiteral { text: String::from_str("0.0") }
    }
}

#[derive(Debug, Clone, Default)]
pub struct Point3 {
    pub x: RealLiteral,
    pub y: RealLiteral,
    pub z: RealLiteral,
}

#[derive(Debug, Default)]
pub struct Node {
    pub id: usize,
    pub point: Point3,
    pub parent_subgroup_ids: HashSet<usize>,
}

#[derive(Debug, Clone, Default)]
pub struct Subgroup {
    pub id: usize,
    pub profit: RealLiteral,
    pub node_ids: Vec<usize>,
    pub parent_cluster_id: usize,
}

#[derive(Debug, Clone, Default)]
pub struct Cluster {
    pub id: usize,
    pub subgroup_ids: Vec<usize>,
}

#[derive(Debug, Clone, Default)]
pub struct Vehicle {
    pub id: usize,
    pub budget: RealLiteral,
    pub start_node_id: usize,
    pub end_node_id: usize,
}

#[derive(Debug, Clone)]
pub struct Instance {
    pub name: String,
    pub metric: Metric,
    pub nodes: Vec<Node>,
    pub subgroups: Vec<Subgroup>,
    pub clusters: Vec<Cluster>,
    pub vehicles: Vec<Vehicle>,
}

impl Default for Instance {
    fn default() -> (r: Self)
        ensures
            r.name@ == Seq::<char>::empty(),
            r.metric == Metric::Euc3d,
            r.nodes@ == Seq::<Node>::empty(),
            r.subgroups@ == Seq::<Subgroup>::empty(),
            r.clusters@ == Seq::<Cluster>::empty(),
            r.vehicles@ == Seq::<Vehicle>::empty(),
    {
        Instance {
            name: String::new(),
            metric: Metric::Euc3d,
            nodes: Vec::new(),
            subgroups: Vec::new(),
            clusters: Vec::new(),
            vehicles: Vec::new(),
        }
    }
}

/// A copy of a set of ids, built element by element.
pub(crate) fn clone_id_set(s: &HashSet<usize>) -> (r: HashSet<usize>)
    ensures
        r@ == s@,
{
    let mut out: HashSet<usize> = HashSet::new();
    let ghost full = vstd::std_specs::iter::IteratorSpec::remaining(&s.iter()).unref();
    proof {
        assert(full.take(0).to_set() =~= Set::<usize>::empty());
    }
    for x in it: s.iter()
        invariant
            it.seq().unref() == full,
            full.to_set() == s@,
            out@ == full.take(it.index()).to_set(),
    {
        let ghost i = it.index();
        assert(full[i] == *x);
        out.insert(*x);
        proof {
            assert(full.take(i + 1) =~= full.take(i).push(*x));
            full.take(i).lemma_push_to_set_commute(*x);
        }
    }
    proof {
        assert(full.take(full.len() as int) =~= full);
    }
    out
}

impl Clone for Node {
    fn clone(&self) -> (r: Self)
        ensures
            r@ == self@,
    {
        Node {
            id: self.id,
            point: Point3 {
                x: RealLiteral::from_text(self.point.x.text.clone()),
                y: RealLiteral::from_text(self.point.y.text.clone()),
                z: RealLiteral::from_text(self.point.z.text.clone()),
            },
            parent_subgroup_ids: clone_id_set(&self.parent_subgroup_ids),
        }
    }
}

/// The plain values of a node.
pub struct NodeView {
    pub id: usize,
    pub x: Seq<char>,
    pub y: Seq<char>,
    pub z: Seq<char>,
    pub parents: Set<usize>,
}

/// The plain values of a subgroup.
pub struct SubgroupView {
    pub id: usize,
    pub profit: Seq<char>,
    pub node_ids: Seq<usize>,
    pub parent_cluster_id: usize,
}

/// The plain values of a cluster.
pub struct ClusterView {
    pub id: usize,
    pub subgroup_ids: Seq<usize>,
}

/// The plain values of a vehicle.
pub struct VehicleView {
    pub id: usize,
    pub budget: Seq<char>,
    pub start_node_id: usize,
    pub end_node_id: usize,
}

impl View for Node {
    type V = NodeView;

    open spec fn view(&self) -> NodeView {
        NodeView {
            id: self.id,
            x: self.point.x@,
            y: self.point.y@,
            z: self.point.z@,
            parents: self.parent_subgroup_ids@,
        }
    }
}

impl View for Subgroup {
    type V = SubgroupView;

    open spec fn view(&self) -> SubgroupView {
        SubgroupView {
            id: self.id,
            profit: self.profit@,
            node_ids: self.node_ids@,
            parent_cluster_id: self.parent_cluster_id,
        }
    }
}

impl View for Cluster {
    type V = ClusterView;

    open spec fn view(&self) -> ClusterView {
        ClusterView { id: self.id, subgroup_ids: self.subgroup_ids@ }
    }
}

impl View for Vehicle {
    type V = VehicleView;

    open spec fn view(&self) -> VehicleView {
        VehicleView {
            id: self.id,
            budget: self.budget@,
            start_node_id: self.start_node_id,
            end_node_id: self.end_node_id,
        }
    }
}

/// The views of the items of a list.
pub open spec fn item_views<T: View>(items: Seq<T>) -> Seq<T::V> {
    items.map_values(|t: T| t@)
}

/// Every list holds its items at the positions of their ids.
pub open spec fn ids_are_positions(instance: Instance) -> bool {
    &&& forall|i: int| 0 <= i < instance.nodes@.len() ==> (#[trigger] instance.nodes@[i]).id == i
    &&& forall|i: int| 0 <= i < instance.subgroups@.len() ==> (#[trigger] instance.subgroups@[i]).id == i
    &&& forall|i: int| 0 <= i < instance.clusters@.len() ==> (#[trigger] instance.clusters@[i]).id == i
    &&& forall|i: int| 0 <= i < instance.vehicles@.len() ==> (#[trigger] instance.vehicles@[i]).id == i
}

/// Every subgroup lists existing nodes and every cluster existing subgroups.
pub open spec fn references_in_range(instance: Instance) -> bool {
    &&& forall|k: int, j: int|
        0 <= k < instance.subgroups@.len() && 0 <= j < instance.subgroups@[k].node_ids@.len()
            ==> #[trigger] instance.subgroups@[k].node_ids@[j] < instance.nodes@.len()
    &&& forall|k: int, j: int|
        0 <= k < instance.clusters@.len() && 0 <= j < instance.clusters@[k].subgroup_ids@.len()
            ==> #[trigger] instance.clusters@[k].subgroup_ids@[j] < instance.subgroups@.len()
}

/// Every vehicle starts and ends at existing nodes.
pub open spec fn vehicles_in_range(instance: Instance) -> bool {
    forall|k: int|
        0 <= k < instance.vehicles@.len() ==> (#[trigger] instance.vehicles@[k]).start_node_id
            < instance.nodes@.len() && instance.vehicles@[k].end_node_id < instance.nodes@.len()
}

/// Items that carry the id under which they are referenced.
pub trait HasId {
    spec fn spec_id(&self) -> usize;

    fn id(&self) -> (r: usize)
        ensures
            r == self.spec_id(),
    ;
}

impl HasId for Node {
    open spec fn spec_id(&self) -> usize {
        self.id
    }

    fn id(&self) -> (r: usize) {
        self.id
    }
}

impl HasId for Subgroup {
    open spec fn spec_id(&self) -> usize {
        self.id
    }

    fn id(&self) -> (r: usize) {
        self.id
    }
}

impl HasId for Cluster {
    open spec fn spec_id(&self) -> usize {
        self.id
    }

    fn id(&self) -> (r: usize) {
        self.id
    }
}

impl HasId for Vehicle {
    open spec fn spec_id(&self) -> usize {
        self.id
    }

    fn id(&self) -> (r: usize) {
        self.id
    }
}

} // verus!
