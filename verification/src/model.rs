//! The index structure of the integer program: which arcs, nodes and node
//! pairs each family of constraints and cuts ranges over.
use crate::instance::Vehicle;
use crate::routes::{is_depot, is_route_endpoint, lemma_depots_are_route_ends};
use vstd::prelude::*;

verus! {

/// The flow constraints of one node in one vehicle's route.
#[derive(Debug, Clone, Copy, PartialEq, Eq, Structural)]
pub enum FlowRule {
    /// The node starts and ends a round trip: at most one arc leaves it, and
    /// as many arcs enter as leave.
    RoundTrip,
    /// The node only starts the route: at most one arc leaves, none enters.
    Start,
    /// The node only ends the route: at most one arc enters, none leaves.
    End,
    /// Any other node: one arc enters and one leaves exactly when it is
    /// visited.
    Visit,
}

pub open spec fn spec_flow_rule(start: usize, end: usize, node: usize) -> FlowRule {
    if start == end {
        if node == start {
            FlowRule::RoundTrip
        } else {
            FlowRule::Visit
        }
    } else if node == start {
        FlowRule::Start
    } else if node == end {
        FlowRule::End
    } else {
        FlowRule::Visit
    }
}

/// Each node's role in a route: the depot of a round trip, the start or the
/// end of a route between two depots, or any other node, which is visited.
pub proof fn lemma_flow_rule_roles(start: usize, end: usize, node: usize)
    ensures
        (spec_flow_rule(start, end, node) == FlowRule::RoundTrip) <==> (node == start && node == end),
        (spec_flow_rule(start, end, node) == FlowRule::Start) <==> (node == start && start != end),
        (spec_flow_rule(start, end, node) == FlowRule::End) <==> (node == end && start != end),
        (spec_flow_rule(start, end, node) == FlowRule::Visit) <==> (node != start && node != end),
{
}

/// The flow constraints of `node` in the route from `start` to `end`.
pub fn flow_rule(start: usize, end: usize, node: usize) -> (r: FlowRule)
    ensures
        r == spec_flow_rule(start, end, node),
        (r == FlowRule::RoundTrip) <==> (node == start && node == end),
        (r == FlowRule::Start) <==> (node == start && start != end),
        (r == FlowRule::End) <==> (node == end && start != end),
        (r == FlowRule::Visit) <==> (node != start && node != end),
{
    proof {
        lemma_flow_rule_roles(start, end, node);
    }
    if start == end {
        if node == start {
            FlowRule::RoundTrip
        } else {
            FlowRule::Visit
        }
    } else if node == start {
        FlowRule::Start
    } else if node == end {
        FlowRule::End
    } else {
        FlowRule::Visit
    }
}

/// Whether `(i, j)` is an arc between distinct nodes among `0..n`.
pub open spec fn is_arc(n: nat, e: (usize, usize)) -> bool {
    e.0 < n && e.1 < n && e.0 != e.1
}

/// The arcs between distinct nodes among `0..num_nodes`, in row order: all
/// arcs leaving node 0, then those leaving node 1, and so on.
pub fn directed_edges(num_nodes: usize) -> (r: Vec<(usize, usize)>)
    requires
        num_nodes * num_nodes <= usize::MAX,
    ensures
        r@.len() == num_nodes * num_nodes - num_nodes,
        forall|e: (usize, usize)| #[trigger] r@.contains(e) <==> is_arc(num_nodes as nat, e),
        forall|a: int, b: int|
            0 <= a < b < r@.len() ==> (r@[a].0 < r@[b].0 || (r@[a].0 == r@[b].0 && r@[a].1 < r@[b].1)),
{
    let mut out: Vec<(usize, usize)> = Vec::new();
    let mut i: usize = 0;
    while i < num_nodes
        invariant
            i <= num_nodes,
            num_nodes * num_nodes <= usize::MAX,
            out@.len() == i * num_nodes - i,
            forall|e: (usize, usize)| #[trigger] out@.contains(e) <==> (is_arc(num_nodes as nat, e) && e.0 < i),
            forall|a: int, b: int|
                0 <= a < b < out@.len() ==> (out@[a].0 < out@[b].0 || (out@[a].0 == out@[b].0 && out@[a].1 < out@[b].1)),
            forall|a: int| 0 <= a < out@.len() ==> (#[trigger] out@[a]).0 < i,
        decreases num_nodes - i,
    {
        let ghost row_start = out@.len();
        let ghost prev = out@;
        let mut j: usize = 0;
        while j < num_nodes
            invariant
                i < num_nodes,
                j <= num_nodes,
                num_nodes * num_nodes <= usize::MAX,
                prev.len() == row_start,
                row_start == i * num_nodes - i,
                out@.len() == row_start + j - (if i < j { 1int } else { 0int }),
                out@.subrange(0, row_start as int) == prev,
                forall|e: (usize, usize)| #[trigger] prev.contains(e) <==> (is_arc(num_nodes as nat, e) && e.0 < i),
                forall|a: int| 0 <= a < prev.len() ==> (#[trigger] prev[a]).0 < i,
                forall|a: int| row_start <= a < out@.len() ==> (#[trigger] out@[a]).0 == i && out@[a].1 < j && out@[a].1 != i,
                forall|x: usize| x < j && x != i ==> #[trigger] out@.contains((i, x)),
                forall|a: int, b: int|
                    0 <= a < b < out@.len() ==> (out@[a].0 < out@[b].0 || (out@[a].0 == out@[b].0 && out@[a].1 < out@[b].1)),
            decreases num_nodes - j,
        {
            if i != j {
                let ghost before = out@;
                out.push((i, j));
                proof {
                    assert forall|x: usize| x < j + 1 && x != i implies #[trigger] out@.contains((i, x)) by {
                        if x == j {
                            assert(out@[out@.len() - 1] == (i, j));
                        } else {
                            assert(before.contains((i, x)));
                            let w = choose|w: int| 0 <= w < before.len() && before[w] == (i, x);
                            assert(out@[w] == (i, x));
                        }
                    }
                    assert(out@.subrange(0, row_start as int) =~= before.subrange(0, row_start as int));
                    assert forall|a: int, b: int| 0 <= a < b < out@.len() implies (out@[a].0 < out@[b].0 || (
                    out@[a].0 == out@[b].0 && out@[a].1 < out@[b].1)) by {
                        if b == out@.len() - 1 {
                            assert(out@[a] == before[a]);
                            if a < row_start {
                                assert(before.subrange(0, row_start as int)[a] == prev[a]);
                                assert(prev[a].0 < i);
                            }
                        } else {
                            assert(out@[a] == before[a] && out@[b] == before[b]);
                        }
                    }
                }
            }
            j = j + 1;
        }
        proof {
            assert forall|e: (usize, usize)| #[trigger] out@.contains(e) <==> (is_arc(num_nodes as nat, e) && e.0 < i + 1) by {
                if out@.contains(e) {
                    let w = choose|w: int| 0 <= w < out@.len() && out@[w] == e;
                    if w < row_start {
                        assert(out@.subrange(0, row_start as int)[w] == e);
                        assert(prev.contains(e));
                    }
                }
                if is_arc(num_nodes as nat, e) && e.0 < i + 1 {
                    if e.0 < i {
                        assert(prev.contains(e));
                        let w = choose|w: int| 0 <= w < prev.len() && prev[w] == e;
                        assert(out@.subrange(0, row_start as int)[w] == e);
                        assert(out@[w] == e);
                    } else {
                        assert(out@.contains((i, e.1)));
                    }
                }
            }
            assert forall|a: int| 0 <= a < out@.len() implies (#[trigger] out@[a]).0 < i + 1 by {
                if a < row_start {
                    assert(out@.subrange(0, row_start as int)[a] == out@[a]);
                }
            }
            assert((i + 1) * num_nodes - (i + 1) == i * num_nodes - i + num_nodes - 1) by (nonlinear_arith);
        }
        i = i + 1;
    }
    out
}

/// The nodes among `0..num_nodes` where no vehicle starts or ends, in
/// increasing order.
pub fn non_depot_nodes(num_nodes: usize, vehicles: &[Vehicle]) -> (r: Vec<usize>)
    ensures
        forall|a: int, b: int| 0 <= a < b < r@.len() ==> r@[a] < r@[b],
        forall|x: usize| #[trigger] r@.contains(x) <==> (x < num_nodes && !is_depot(vehicles@, x)),
        forall|x: usize| #[trigger] r@.contains(x) <==> (x < num_nodes && forall|k: int|
            0 <= k < vehicles@.len() ==> (#[trigger] vehicles@[k]).start_node_id != x
                && vehicles@[k].end_node_id != x),
{
    let mut out: Vec<usize> = Vec::new();
    let mut i: usize = 0;
    while i < num_nodes
        invariant
            i <= num_nodes,
            forall|a: int, b: int| 0 <= a < b < out@.len() ==> out@[a] < out@[b],
            forall|a: int| 0 <= a < out@.len() ==> out@[a] < i,
            forall|x: usize| #[trigger] out@.contains(x) <==> (x < i && !is_depot(vehicles@, x)),
        decreases num_nodes - i,
    {
        let ghost before = out@;
        if !is_route_endpoint(vehicles, i) {
            out.push(i);
        }
        proof {
            assert forall|x: usize| #[trigger] out@.contains(x) <==> (x < i + 1 && !is_depot(vehicles@, x)) by {
                if out@.contains(x) {
                    let w = choose|w: int| 0 <= w < out@.len() && out@[w] == x;
                    if w < before.len() {
                        assert(before[w] == x);
                        assert(before.contains(x));
                    } else {
                        assert(x == i);
                    }
                }
                if x < i && !is_depot(vehicles@, x) {
                    assert(before.contains(x));
                    let w = choose|w: int| 0 <= w < before.len() && before[w] == x;
                    assert(out@[w] == x);
                }
                if x == i && !is_depot(vehicles@, x) {
                    assert(out@[out@.len() - 1] == x);
                }
            }
        }
        i = i + 1;
    }
    proof {
        assert forall|x: usize| #[trigger] out@.contains(x) <==> (x < num_nodes && forall|k: int|
            0 <= k < vehicles@.len() ==> (#[trigger] vehicles@[k]).start_node_id != x
                && vehicles@[k].end_node_id != x) by {
            lemma_depots_are_route_ends(vehicles@, x);
        }
    }
    out
}

/// The nodes among `0..num_nodes` outside `tour`, in increasing order.
pub fn outside_nodes(num_nodes: usize, tour: &[usize]) -> (r: Vec<usize>)
    ensures
        forall|a: int, b: int| 0 <= a < b < r@.len() ==> r@[a] < r@[b],
        forall|x: usize| #[trigger] r@.contains(x) <==> (x < num_nodes && !tour@.contains(x)),
{
    let mut out: Vec<usize> = Vec::new();
    let mut i: usize = 0;
    while i < num_nodes
        invariant
            i <= num_nodes,
            forall|a: int, b: int| 0 <= a < b < out@.len() ==> out@[a] < out@[b],
            forall|a: int| 0 <= a < out@.len() ==> out@[a] < i,
            forall|x: usize| #[trigger] out@.contains(x) <==> (x < i && !tour@.contains(x)),
        decreases num_nodes - i,
    {
        let ghost before = out@;
        let mut inside = false;
        let mut p: usize = 0;
        while p < tour.len()
            invariant
                p <= tour@.len(),
                inside <==> exists|q: int| 0 <= q < p && tour@[q] == i,
            decreases tour@.len() - p,
        {
            if tour[p] == i {
                inside = true;
            }
            p = p + 1;
        }
        if !inside {
            out.push(i);
        }
        proof {
            assert forall|x: usize| #[trigger] out@.contains(x) <==> (x < i + 1 && !tour@.contains(x)) by {
                if out@.contains(x) {
                    let w = choose|w: int| 0 <= w < out@.len() && out@[w] == x;
                    if w < before.len() {
                        assert(before[w] == x);
                        assert(before.contains(x));
                    } else {
                        assert(x == i);
                    }
                }
                if x < i && !tour@.contains(x) {
                    assert(before.contains(x));
                    let w = choose|w: int| 0 <= w < before.len() && before[w] == x;
                    assert(out@[w] == x);
                }
                if x == i && !tour@.contains(x) {
                    assert(out@[out@.len() - 1] == x);
                }
            }
        }
        i = i + 1;
    }
    out
}

/// The first node `j` other than `cur` with arc `(cur, j)` selected.
pub open spec fn first_successor(selected: Seq<Seq<bool>>, cur: usize, n: nat) -> Option<usize>
    decreases n,
{
    if n == 0 {
        None
    } else {
        match first_successor(selected, cur, (n - 1) as nat) {
            Some(j) => Some(j),
            None => if (n - 1) as usize != cur && selected[cur as int][n - 1] {
                Some((n - 1) as usize)
            } else {
                None
            },
        }
    }
}

/// The nodes met by following selected arcs from `cur` for at most `steps`
/// arcs, stopping at `end` or where no arc leaves.
pub open spec fn follow_arcs(selected: Seq<Seq<bool>>, cur: usize, end: usize, n: nat, steps: nat) -> Seq<usize>
    decreases steps,
{
    if steps == 0 {
        Seq::empty()
    } else {
        match first_successor(selected, cur, n) {
            None => Seq::empty(),
            Some(j) => if j == end {
                seq![j]
            } else {
                seq![j] + follow_arcs(selected, j, end, n, (steps - 1) as nat)
            },
        }
    }
}

/// The route of a vehicle read off its selected arcs.
pub open spec fn traced_route(selected: Seq<Seq<bool>>, start: usize, end: usize, n: nat) -> Seq<usize> {
    seq![start] + follow_arcs(selected, start, end, n, n + 2)
}

proof fn lemma_first_successor_bounds(selected: Seq<Seq<bool>>, cur: usize, n: nat)
    ensures
        first_successor(selected, cur, n) matches Some(j) ==> j < n,
    decreases n,
{
    if n > 0 {
        lemma_first_successor_bounds(selected, cur, (n - 1) as nat);
    }
}

/// The rows of a selection matrix as plain values.
pub open spec fn row_views(selected: Seq<Vec<bool>>) -> Seq<Seq<bool>> {
    selected.map_values(|row: Vec<bool>| row@)
}

/// `(u, v)` is a selected arc between distinct nodes, and no selected arc
/// from `u` leads to a lower-numbered node other than `u`.
pub open spec fn first_selected_arc(selected: Seq<Seq<bool>>, u: usize, v: usize) -> bool {
    &&& v != u
    &&& selected[u as int][v as int]
    &&& forall|j: int| 0 <= j < v && j != u ==> !#[trigger] selected[u as int][j]
}

/// No selected arc leaves `u` towards another node among the first `n`.
pub open spec fn no_selected_arc(selected: Seq<Seq<bool>>, u: usize, n: nat) -> bool {
    forall|j: int| 0 <= j < n && j != u ==> !#[trigger] selected[u as int][j]
}

/// The successor search finds the lowest-numbered node, among all `n`
/// nodes, that a selected arc from `cur` reaches, and finds none only when
/// no selected arc leaves `cur`.
pub proof fn lemma_first_successor_law(selected: Seq<Seq<bool>>, cur: usize, n: nat)
    requires
        n <= usize::MAX + 1,
    ensures
        match first_successor(selected, cur, n) {
            Some(j) => j < n && first_selected_arc(selected, cur, j),
            None => no_selected_arc(selected, cur, n),
        },
    decreases n,
{
    if n > 0 {
        lemma_first_successor_law(selected, cur, (n - 1) as nat);
        if first_successor(selected, cur, (n - 1) as nat) is None {
            assert(((n - 1) as usize) as int == n - 1);
        }
    }
}

/// A route read off the selected arcs from `cur`, for at most `steps`
/// arcs: every step takes the first selected arc, no node before the last
/// is `end`, and it stops early only at `end` or where no arc leaves.
pub proof fn lemma_follow_arcs_law(selected: Seq<Seq<bool>>, cur: usize, end: usize, n: nat, steps: nat)
    requires
        n <= usize::MAX + 1,
    ensures
        ({
            let w = seq![cur] + follow_arcs(selected, cur, end, n, steps);
            &&& 1 <= w.len() <= steps + 1
            &&& w[0] == cur
            &&& forall|i: int| 1 <= i < w.len() ==> #[trigger] w[i] < n
            &&& forall|i: int| 0 <= i < w.len() - 1 ==> first_selected_arc(selected, #[trigger] w[i], w[i + 1])
            &&& forall|i: int| 1 <= i < w.len() - 1 ==> #[trigger] w[i] != end
            &&& w.len() < steps + 1 ==> (w.len() > 1 && w.last() == end) || no_selected_arc(selected, w.last(), n)
        }),
    decreases steps,
{
    let w = seq![cur] + follow_arcs(selected, cur, end, n, steps);
    if steps == 0 {
        assert(w =~= seq![cur]);
    } else {
        lemma_first_successor_law(selected, cur, n);
        match first_successor(selected, cur, n) {
            None => {
                assert(w =~= seq![cur]);
            },
            Some(j) => {
                if j == end {
                    assert(w =~= seq![cur, j]);
                    assert(w[1] == j);
                } else {
                    lemma_follow_arcs_law(selected, j, end, n, (steps - 1) as nat);
                    let w2 = seq![j] + follow_arcs(selected, j, end, n, (steps - 1) as nat);
                    assert(w =~= seq![cur] + w2);
                    assert forall|i: int| 1 <= i < w.len() implies #[trigger] w[i] < n by {
                        assert(w[i] == w2[i - 1]);
                    }
                    assert forall|i: int| 0 <= i < w.len() - 1 implies first_selected_arc(
                        selected,
                        #[trigger] w[i],
                        w[i + 1],
                    ) by {
                        if i > 0 {
                            assert(w[i] == w2[i - 1] && w[i + 1] == w2[i]);
                        } else {
                            assert(w[1] == j);
                        }
                    }
                    assert forall|i: int| 1 <= i < w.len() - 1 implies #[trigger] w[i] != end by {
                        assert(w[i] == w2[i - 1]);
                    }
                    assert(w.last() == w2.last());
                }
            },
        }
    }
}

/// The first node after `cur` whose arc from `cur` is selected.
fn find_successor(selected: &Vec<Vec<bool>>, cur: usize, num_nodes: usize) -> (r: Option<usize>)
    requires
        cur < selected@.len(),
        selected@[cur as int]@.len() == num_nodes,
    ensures
        r == first_successor(row_views(selected@), cur, num_nodes as nat),
        match r {
            Some(j) => j < num_nodes && first_selected_arc(row_views(selected@), cur, j),
            None => no_selected_arc(row_views(selected@), cur, num_nodes as nat),
        },
{
    let r = scan_successor(selected, cur, num_nodes);
    proof {
        lemma_first_successor_law(row_views(selected@), cur, num_nodes as nat);
    }
    r
}

fn scan_successor(selected: &Vec<Vec<bool>>, cur: usize, num_nodes: usize) -> (r: Option<usize>)
    requires
        cur < selected@.len(),
        selected@[cur as int]@.len() == num_nodes,
    ensures
        r == first_successor(row_views(selected@), cur, num_nodes as nat),
{
    let ghost sel = row_views(selected@);
    let row = &selected[cur];
    let mut j: usize = 0;
    while j < num_nodes
        invariant
            j <= num_nodes,
            *row == selected@[cur as int],
            row@.len() == num_nodes,
            sel == row_views(selected@),
            cur < selected@.len(),
            first_successor(sel, cur, j as nat) is None,
        decreases num_nodes - j,
    {
        assert(sel[cur as int] == row@);
        if j != cur && row[j] {
            assert(first_successor(sel, cur, (j + 1) as nat) == Some(j));
            proof {
                lemma_first_successor_none_extends(sel, cur, (j + 1) as nat, num_nodes as nat);
            }
            return Some(j);
        }
        j = j + 1;
    }
    None
}

proof fn lemma_first_successor_none_extends(selected: Seq<Seq<bool>>, cur: usize, m: nat, n: nat)
    requires
        m <= n,
        first_successor(selected, cur, m) is Some,
    ensures
        first_successor(selected, cur, n) == first_successor(selected, cur, m),
    decreases n - m,
{
    if m < n {
        lemma_first_successor_none_extends(selected, cur, m, (n - 1) as nat);
    }
}

/// The route of a vehicle from its selected arcs: from the start node,
/// repeatedly the first node whose arc from the current node is selected,
/// for at most `num_nodes + 2` arcs, until the end node or a node that no
/// selected arc leaves.
pub fn trace_route(selected: &Vec<Vec<bool>>, start: usize, end: usize, num_nodes: usize) -> (r: Vec<usize>)
    requires
        selected@.len() == num_nodes,
        forall|i: int| 0 <= i < num_nodes ==> (#[trigger] selected@[i])@.len() == num_nodes,
        start < num_nodes,
        num_nodes + 2 <= usize::MAX,
    ensures
        r@ == traced_route(row_views(selected@), start, end, num_nodes as nat),
        ({
            let sel = row_views(selected@);
            &&& 1 <= r@.len() <= num_nodes + 3
            &&& r@[0] == start
            &&& forall|i: int| 1 <= i < r@.len() ==> #[trigger] r@[i] < num_nodes
            &&& forall|i: int| 0 <= i < r@.len() - 1 ==> first_selected_arc(sel, #[trigger] r@[i], r@[i + 1])
            &&& forall|i: int| 1 <= i < r@.len() - 1 ==> #[trigger] r@[i] != end
            &&& r@.len() < num_nodes + 3 ==> (r@.len() > 1 && r@.last() == end) || no_selected_arc(sel, r@.last(), num_nodes as nat)
        }),
{
    let r = follow_selected(selected, start, end, num_nodes);
    proof {
        lemma_follow_arcs_law(row_views(selected@), start, end, num_nodes as nat, (num_nodes + 2) as nat);
    }
    r
}

fn follow_selected(selected: &Vec<Vec<bool>>, start: usize, end: usize, num_nodes: usize) -> (r: Vec<usize>)
    requires
        selected@.len() == num_nodes,
        forall|i: int| 0 <= i < num_nodes ==> (#[trigger] selected@[i])@.len() == num_nodes,
        start < num_nodes,
        num_nodes + 2 <= usize::MAX,
    ensures
        r@ == traced_route(row_views(selected@), start, end, num_nodes as nat),
{
    let ghost sel = row_views(selected@);
    let mut route: Vec<usize> = Vec::new();
    route.push(start);
    let mut current = start;
    let mut steps: usize = 0;
    let total = num_nodes + 2;
    loop
        invariant
            steps <= total,
            total == num_nodes + 2,
            current < num_nodes,
            selected@.len() == num_nodes,
            forall|i: int| 0 <= i < num_nodes ==> (#[trigger] selected@[i])@.len() == num_nodes,
            sel == row_views(selected@),
            route@ + follow_arcs(sel, current, end, num_nodes as nat, (total - steps) as nat)
                == traced_route(sel, start, end, num_nodes as nat),
        decreases total - steps,
    {
        if steps == total {
            assert(route@ + Seq::<usize>::empty() =~= route@);
            return route;
        }
        let next = find_successor(selected, current, num_nodes);
        proof {
            lemma_first_successor_bounds(sel, current, num_nodes as nat);
        }
        match next {
            None => {
                assert(route@ + Seq::<usize>::empty() =~= route@);
                return route;
            },
            Some(j) => {
                let ghost before = route@;
                route.push(j);
                current = j;
                steps = steps + 1;
                if j == end {
                    assert(before + seq![j] =~= route@);
                    return route;
                }
                assert(before + (seq![j] + follow_arcs(sel, j, end, num_nodes as nat, (total - steps) as nat))
                    =~= route@ + follow_arcs(sel, j, end, num_nodes as nat, (total - steps) as nat));
            },
        }
    }
}

/// The matches a merge of `s1` and `s2` finds: equal heads count and are
/// both passed; else the smaller head is passed.
pub open spec fn merge_matches(s1: Seq<usize>, s2: Seq<usize>) -> nat
    decreases s1.len() + s2.len(),
{
    if s1.len() == 0 || s2.len() == 0 {
        0
    } else if s1[0] == s2[0] {
        1 + merge_matches(s1.drop_first(), s2.drop_first())
    } else if s1[0] < s2[0] {
        merge_matches(s1.drop_first(), s2)
    } else {
        merge_matches(s1, s2.drop_first())
    }
}

pub open spec fn strictly_increasing(s: Seq<usize>) -> bool {
    forall|a: int, b: int| 0 <= a < b < s.len() ==> s[a] < s[b]
}

/// On strictly increasing lists the merge counts the common elements.
pub proof fn lemma_merge_matches_counts_common(s1: Seq<usize>, s2: Seq<usize>)
    requires
        strictly_increasing(s1),
        strictly_increasing(s2),
    ensures
        merge_matches(s1, s2) == s1.to_set().intersect(s2.to_set()).len(),
    decreases s1.len() + s2.len(),
{
    broadcast use vstd::set::group_set_axioms, vstd::set_lib::group_set_lib_default;
    if s1.len() == 0 {
        assert(s1.to_set().intersect(s2.to_set()) =~= Set::<usize>::empty());
    } else if s2.len() == 0 {
        assert(s1.to_set().intersect(s2.to_set()) =~= Set::<usize>::empty());
    } else {
        let t1 = s1.drop_first();
        let t2 = s2.drop_first();
        assert(s1.to_set() =~= t1.to_set().insert(s1[0])) by {
            assert forall|x: usize| s1.to_set().contains(x) implies #[trigger] t1.to_set().insert(s1[0]).contains(x) by {
                let w = choose|w: int| 0 <= w < s1.len() && s1[w] == x;
                if w > 0 {
                    assert(t1[w - 1] == x);
                }
            }
            assert forall|x: usize| #[trigger] t1.to_set().insert(s1[0]).contains(x) implies s1.to_set().contains(x) by {
                if x != s1[0] {
                    let w = choose|w: int| 0 <= w < t1.len() && t1[w] == x;
                    assert(s1[w + 1] == x);
                } else {
                    assert(s1[0] == x);
                }
            }
        }
        assert(s2.to_set() =~= t2.to_set().insert(s2[0])) by {
            assert forall|x: usize| s2.to_set().contains(x) implies #[trigger] t2.to_set().insert(s2[0]).contains(x) by {
                let w = choose|w: int| 0 <= w < s2.len() && s2[w] == x;
                if w > 0 {
                    assert(t2[w - 1] == x);
                }
            }
            assert forall|x: usize| #[trigger] t2.to_set().insert(s2[0]).contains(x) implies s2.to_set().contains(x) by {
                if x != s2[0] {
                    let w = choose|w: int| 0 <= w < t2.len() && t2[w] == x;
                    assert(s2[w + 1] == x);
                } else {
                    assert(s2[0] == x);
                }
            }
        }
        assert(!t1.to_set().contains(s1[0])) by {
            if t1.to_set().contains(s1[0]) {
                let w = choose|w: int| 0 <= w < t1.len() && t1[w] == s1[0];
                assert(s1[w + 1] == s1[0]);
            }
        }
        assert(!t2.to_set().contains(s2[0])) by {
            if t2.to_set().contains(s2[0]) {
                let w = choose|w: int| 0 <= w < t2.len() && t2[w] == s2[0];
                assert(s2[w + 1] == s2[0]);
            }
        }
        assert(forall|x: usize| t1.to_set().contains(x) ==> s1[0] < x) by {
            assert forall|x: usize| t1.to_set().contains(x) implies s1[0] < x by {
                let w = choose|w: int| 0 <= w < t1.len() && t1[w] == x;
                assert(s1[w + 1] == x);
            }
        }
        assert(forall|x: usize| t2.to_set().contains(x) ==> s2[0] < x) by {
            assert forall|x: usize| t2.to_set().contains(x) implies s2[0] < x by {
                let w = choose|w: int| 0 <= w < t2.len() && t2[w] == x;
                assert(s2[w + 1] == x);
            }
        }
        let common = s1.to_set().intersect(s2.to_set());
        if s1[0] == s2[0] {
            lemma_merge_matches_counts_common(t1, t2);
            let rest = t1.to_set().intersect(t2.to_set());
            assert(common =~= rest.insert(s1[0]));
            assert(!rest.contains(s1[0]));
        } else if s1[0] < s2[0] {
            lemma_merge_matches_counts_common(t1, s2);
            assert(common =~= t1.to_set().intersect(s2.to_set()));
        } else {
            lemma_merge_matches_counts_common(s1, t2);
            assert(common =~= s1.to_set().intersect(t2.to_set()));
        }
    }
}

/// The number of matches a merge of `s1` and `s2` finds: on strictly
/// increasing lists, how many elements they share.
pub fn common_count(s1: &[usize], s2: &[usize]) -> (r: usize)
    ensures
        r == merge_matches(s1@, s2@),
        strictly_increasing(s1@) && strictly_increasing(s2@) ==> r == s1@.to_set().intersect(s2@.to_set()).len(),
{
    let mut i: usize = 0;
    let mut j: usize = 0;
    let mut count: usize = 0;
    assert(s1@.skip(0) =~= s1@);
    assert(s2@.skip(0) =~= s2@);
    while i < s1.len() && j < s2.len()
        invariant
            i <= s1@.len(),
            j <= s2@.len(),
            count <= i,
            count + merge_matches(s1@.skip(i as int), s2@.skip(j as int)) == merge_matches(s1@, s2@),
        decreases s1@.len() + s2@.len() - i - j,
    {
        let ghost a = s1@.skip(i as int);
        let ghost b = s2@.skip(j as int);
        assert(a[0] == s1@[i as int] && b[0] == s2@[j as int]);
        assert(a.drop_first() =~= s1@.skip(i + 1));
        assert(b.drop_first() =~= s2@.skip(j + 1));
        if s1[i] == s2[j] {
            count = count + 1;
            i = i + 1;
            j = j + 1;
        } else if s1[i] < s2[j] {
            i = i + 1;
        } else {
            j = j + 1;
        }
    }
    proof {
        assert(s1@.skip(i as int).len() == 0 || s2@.skip(j as int).len() == 0);
        if strictly_increasing(s1@) && strictly_increasing(s2@) {
            lemma_merge_matches_counts_common(s1@, s2@);
        }
    }
    count
}

/// The endpoints of a list of arcs, in order: the tail, then the head of
/// each arc.
pub open spec fn endpoints(edges: Seq<(usize, usize)>) -> Seq<usize>
    decreases edges.len(),
{
    if edges.len() == 0 {
        Seq::empty()
    } else {
        endpoints(edges.drop_last()) + seq![edges.last().0, edges.last().1]
    }
}

/// The distinct elements of `s` in the order of their first occurrence.
pub open spec fn first_occurrences(s: Seq<usize>) -> Seq<usize>
    decreases s.len(),
{
    if s.len() == 0 {
        Seq::empty()
    } else {
        let r = first_occurrences(s.drop_last());
        if r.contains(s.last()) {
            r
        } else {
            r.push(s.last())
        }
    }
}

/// A numbering of the nodes that a flow network uses: `end_node` first, then
/// the endpoints of the arcs in the order they first occur. `old_to_new`
/// gives each node's number, or `usize::MAX` for nodes left out.
pub fn compact_nodes(num_nodes: usize, end_node: usize, edges: &[(usize, usize)]) -> (r: (
    Vec<usize>,
    Vec<usize>,
))
    requires
        end_node < num_nodes,
        forall|k: int| 0 <= k < edges@.len() ==> (#[trigger] edges@[k]).0 < num_nodes && edges@[k].1 < num_nodes,
        2 * edges@.len() + 1 < usize::MAX,
    ensures
        r.1@ == first_occurrences(seq![end_node] + endpoints(edges@)),
        r.0@.len() == num_nodes,
        forall|i: int| 0 <= i < r.1@.len() ==> r.0@[#[trigger] r.1@[i] as int] == i,
        forall|x: int| 0 <= x < num_nodes && !r.1@.contains(x as usize) ==> #[trigger] r.0@[x] == usize::MAX,
{
    let mut old_to_new: Vec<usize> = Vec::new();
    let mut n: usize = 0;
    while n < num_nodes
        invariant
            n <= num_nodes,
            old_to_new@.len() == n,
            forall|x: int| 0 <= x < n ==> old_to_new@[x] == usize::MAX,
        decreases num_nodes - n,
    {
        old_to_new.push(usize::MAX);
        n = n + 1;
    }
    let mut new_to_old: Vec<usize> = Vec::new();
    old_to_new.set(end_node, 0);
    new_to_old.push(end_node);
    proof {
        let s = seq![end_node];
        assert(s.drop_last() =~= Seq::<usize>::empty());
        assert(first_occurrences(Seq::<usize>::empty()) =~= Seq::<usize>::empty());
        assert(first_occurrences(s) =~= seq![end_node]);
        assert(seq![end_node] + endpoints(edges@.take(0)) =~= s);
    }
    let mut k: usize = 0;
    while k < edges.len()
        invariant
            k <= edges@.len(),
            2 * edges@.len() + 1 < usize::MAX,
            end_node < num_nodes,
            forall|j: int| 0 <= j < edges@.len() ==> (#[trigger] edges@[j]).0 < num_nodes && edges@[j].1 < num_nodes,
            old_to_new@.len() == num_nodes,
            new_to_old@.len() <= 2 * k + 1,
            new_to_old@ == first_occurrences(seq![end_node] + endpoints(edges@.take(k as int))),
            forall|i: int| 0 <= i < new_to_old@.len() ==> #[trigger] new_to_old@[i] < num_nodes,
            forall|i: int| 0 <= i < new_to_old@.len() ==> old_to_new@[#[trigger] new_to_old@[i] as int] == i,
            forall|x: int| 0 <= x < num_nodes && !new_to_old@.contains(x as usize) ==> #[trigger] old_to_new@[x] == usize::MAX,
        decreases edges@.len() - k,
    {
        let (u, v) = edges[k];
        let ghost base = seq![end_node] + endpoints(edges@.take(k as int));
        proof {
            assert(edges@.take(k + 1).drop_last() =~= edges@.take(k as int));
            assert(seq![end_node] + endpoints(edges@.take(k + 1)) =~= base.push(u).push(v));
            assert(base.push(u).drop_last() =~= base);
            assert(base.push(u).push(v).drop_last() =~= base.push(u));
        }
        add_node(&mut old_to_new, &mut new_to_old, u, num_nodes);
        assert(new_to_old@ == first_occurrences(base.push(u))) by {
            assert(base.push(u).last() == u);
        }
        add_node(&mut old_to_new, &mut new_to_old, v, num_nodes);
        assert(new_to_old@ == first_occurrences(base.push(u).push(v))) by {
            assert(base.push(u).push(v).last() == v);
        }
        k = k + 1;
    }
    proof {
        assert(edges@.take(edges@.len() as int) =~= edges@);
    }
    (old_to_new, new_to_old)
}

/// Numbers `x` next when it has no number yet.
fn add_node(old_to_new: &mut Vec<usize>, new_to_old: &mut Vec<usize>, x: usize, num_nodes: usize)
    requires
        x < num_nodes,
        old(old_to_new)@.len() == num_nodes,
        old(new_to_old)@.len() < usize::MAX - 1,
        forall|i: int| 0 <= i < old(new_to_old)@.len() ==> #[trigger] old(new_to_old)@[i] < num_nodes,
        forall|i: int| 0 <= i < old(new_to_old)@.len() ==> old(old_to_new)@[#[trigger] old(new_to_old)@[i] as int] == i,
        forall|y: int| 0 <= y < num_nodes && !old(new_to_old)@.contains(y as usize) ==> #[trigger] old(old_to_new)@[y] == usize::MAX,
    ensures
        final(new_to_old)@ == (if old(new_to_old)@.contains(x) { old(new_to_old)@ } else { old(new_to_old)@.push(x) }),
        final(old_to_new)@.len() == num_nodes,
        forall|i: int| 0 <= i < final(new_to_old)@.len() ==> #[trigger] final(new_to_old)@[i] < num_nodes,
        forall|i: int| 0 <= i < final(new_to_old)@.len() ==> final(old_to_new)@[#[trigger] final(new_to_old)@[i] as int] == i,
        forall|y: int| 0 <= y < num_nodes && !final(new_to_old)@.contains(y as usize) ==> #[trigger] final(old_to_new)@[y] == usize::MAX,
{
    if old_to_new[x] == usize::MAX {
        assert(!new_to_old@.contains(x)) by {
            if new_to_old@.contains(x) {
                let w = choose|w: int| 0 <= w < new_to_old@.len() && new_to_old@[w] == x;
                assert(old_to_new@[new_to_old@[w] as int] == w);
            }
        }
        let idx = new_to_old.len();
        let ghost before = new_to_old@;
        old_to_new.set(x, idx);
        new_to_old.push(x);
        proof {
            assert forall|i: int| 0 <= i < new_to_old@.len() implies old_to_new@[#[trigger] new_to_old@[i] as int] == i by {
                if i < before.len() {
                    assert(new_to_old@[i] == before[i]);
                    assert(before[i] != x);
                }
            }
            assert forall|y: int| 0 <= y < num_nodes && !new_to_old@.contains(y as usize) implies #[trigger] old_to_new@[y] == usize::MAX by {
                if y != x {
                    if before.contains(y as usize) {
                        let w = choose|w: int| 0 <= w < before.len() && before[w] == y as usize;
                        assert(new_to_old@[w] == y as usize);
                    }
                } else {
                    assert(new_to_old@[before.len() as int] == x);
                }
            }
        }
    } else {
        assert(new_to_old@.contains(x));
    }
}

} // verus!
