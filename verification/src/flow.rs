//! Directed reachability over the arcs that carry flow, as the fractional
//! subtour separation uses it: a node from which the sink cannot be reached
//! along such arcs lies in a set that no flow leaves.
use crate::separation::{count_unvisited, lemma_count_unvisited_mark};
use vstd::prelude::*;

verus! {

/// `(u, v)` is one of the arcs.
pub open spec fn has_arc(arcs: Seq<(usize, usize)>, u: usize, v: usize) -> bool {
    exists|k: int| 0 <= k < arcs.len() && #[trigger] arcs[k] == (u, v)
}

/// `p` is a nonempty path along the arcs, in their direction.
pub open spec fn is_path(arcs: Seq<(usize, usize)>, p: Seq<usize>) -> bool {
    &&& p.len() >= 1
    &&& forall|i: int| 0 <= i < p.len() - 1 ==> has_arc(arcs, #[trigger] p[i], p[i + 1])
}

/// Some path leads from `u` to `v`.
pub open spec fn leads_to(arcs: Seq<(usize, usize)>, u: usize, v: usize) -> bool {
    exists|p: Seq<usize>| #[trigger] is_path(arcs, p) && p[0] == u && p.last() == v
}

proof fn lemma_leads_to_self(arcs: Seq<(usize, usize)>, u: usize)
    ensures
        leads_to(arcs, u, u),
{
    let p = seq![u];
    assert(is_path(arcs, p));
}

proof fn lemma_leads_to_step(arcs: Seq<(usize, usize)>, u: usize, x: usize, y: usize)
    requires
        leads_to(arcs, u, x),
        has_arc(arcs, x, y),
    ensures
        leads_to(arcs, u, y),
{
    let p = choose|p: Seq<usize>| #[trigger] is_path(arcs, p) && p[0] == u && p.last() == x;
    let q = p.push(y);
    assert forall|i: int| 0 <= i < q.len() - 1 implies has_arc(arcs, #[trigger] q[i], q[i + 1]) by {
        if i < p.len() - 1 {
            assert(q[i] == p[i] && q[i + 1] == p[i + 1]);
        } else {
            assert(q[i] == x && q[i + 1] == y);
        }
    }
    assert(is_path(arcs, q));
}

proof fn lemma_path_stays(arcs: Seq<(usize, usize)>, s: Seq<bool>, p: Seq<usize>, i: int)
    requires
        is_path(arcs, p),
        forall|x: usize, y: usize| x < s.len() && s[x as int] && #[trigger] has_arc(arcs, x, y) ==> y < s.len() && s[y as int],
        p[0] < s.len() && s[p[0] as int],
        0 <= i < p.len(),
    ensures
        p[i] < s.len() && s[p[i] as int],
    decreases i,
{
    if i > 0 {
        lemma_path_stays(arcs, s, p, i - 1);
        assert(has_arc(arcs, p[i - 1], p[i]));
    }
}

/// Marks that no arc leaves hold every node their marked source leads to.
proof fn lemma_marks_hold_reachable(arcs: Seq<(usize, usize)>, s: Seq<bool>, source: usize)
    requires
        forall|x: usize, y: usize| x < s.len() && s[x as int] && #[trigger] has_arc(arcs, x, y) ==> y < s.len() && s[y as int],
        source < s.len() && s[source as int],
    ensures
        forall|x: usize| #[trigger] leads_to(arcs, source, x) ==> x < s.len() && s[x as int],
{
    assert forall|x: usize| #[trigger] leads_to(arcs, source, x) implies x < s.len() && s[x as int] by {
        let p = choose|p: Seq<usize>| #[trigger] is_path(arcs, p) && p[0] == source && p.last() == x;
        lemma_path_stays(arcs, s, p, p.len() - 1);
        assert(p[p.len() - 1] == x);
        assert(x < s.len());
    }
}

/// The successor lists of the arcs.
fn successor_lists(num_nodes: usize, arcs: &[(usize, usize)]) -> (succ: Vec<Vec<usize>>)
    requires
        forall|k: int| 0 <= k < arcs@.len() ==> (#[trigger] arcs@[k]).0 < num_nodes && arcs@[k].1 < num_nodes,
    ensures
        succ@.len() == num_nodes,
        forall|u: int, v: usize| 0 <= u < num_nodes ==> (#[trigger] succ@[u]@.contains(v) <==> has_arc(arcs@, u as usize, v)),
{
    let mut succ: Vec<Vec<usize>> = Vec::new();
    let mut i: usize = 0;
    while i < num_nodes
        invariant
            i <= num_nodes,
            succ@.len() == i,
            forall|u: int| 0 <= u < i ==> (#[trigger] succ@[u])@ == Seq::<usize>::empty(),
        decreases num_nodes - i,
    {
        succ.push(Vec::new());
        i = i + 1;
    }
    let mut k: usize = 0;
    while k < arcs.len()
        invariant
            k <= arcs@.len(),
            succ@.len() == num_nodes,
            forall|j: int| 0 <= j < arcs@.len() ==> (#[trigger] arcs@[j]).0 < num_nodes && arcs@[j].1 < num_nodes,
            forall|u: int, v: usize|
                0 <= u < num_nodes ==> (#[trigger] succ@[u]@.contains(v) <==> has_arc(arcs@.subrange(0, k as int), u as usize, v)),
        decreases arcs@.len() - k,
    {
        let (a, b) = arcs[k];
        let ghost old_succ = succ@;
        succ[a].push(b);
        let ghost prev = arcs@.subrange(0, k as int);
        let ghost next = arcs@.subrange(0, k + 1);
        assert forall|u: int, v: usize|
            0 <= u < num_nodes implies (#[trigger] succ@[u]@.contains(v) <==> has_arc(next, u as usize, v)) by {
            if succ@[u]@.contains(v) {
                if old_succ[u]@.contains(v) {
                    let kk = choose|kk: int| 0 <= kk < prev.len() && #[trigger] prev[kk] == (u as usize, v);
                    assert(next[kk] == prev[kk]);
                } else {
                    let w = choose|w: int| 0 <= w < succ@[u]@.len() && succ@[u]@[w] == v;
                    if u == a as int {
                        if w < old_succ[u]@.len() {
                            assert(old_succ[u]@[w] == v);
                        }
                    } else {
                        assert(succ@[u] == old_succ[u]);
                    }
                    assert(next[k as int] == (a, b));
                }
            }
            if has_arc(next, u as usize, v) {
                let kk = choose|kk: int| 0 <= kk < next.len() && #[trigger] next[kk] == (u as usize, v);
                if kk < k {
                    assert(prev[kk] == next[kk]);
                    assert(old_succ[u]@.contains(v));
                    let j = choose|j: int| 0 <= j < old_succ[u]@.len() && old_succ[u]@[j] == v;
                    if u == a as int {
                        assert(succ@[u]@[j] == v);
                    } else {
                        assert(succ@[u] == old_succ[u]);
                    }
                } else {
                    assert(next[kk] == (a, b));
                    assert(succ@[u]@[old_succ[u]@.len() as int] == v);
                }
            }
        }
        k = k + 1;
    }
    assert(arcs@.subrange(0, arcs@.len() as int) =~= arcs@);
    succ
}

/// The nodes that `source` leads to, marked.
#[verifier::rlimit(40)]
fn reached_nodes(num_nodes: usize, arcs: &[(usize, usize)], succ: &Vec<Vec<usize>>, source: usize) -> (visited: Vec<bool>)
    requires
        source < num_nodes,
        succ@.len() == num_nodes,
        forall|u: int, v: usize| 0 <= u < num_nodes ==> (#[trigger] succ@[u]@.contains(v) <==> has_arc(arcs@, u as usize, v)),
        forall|k: int| 0 <= k < arcs@.len() ==> (#[trigger] arcs@[k]).0 < num_nodes && arcs@[k].1 < num_nodes,
    ensures
        visited@.len() == num_nodes,
        forall|x: usize| x < num_nodes ==> (#[trigger] visited@[x as int] <==> leads_to(arcs@, source, x)),
        forall|x: usize| #[trigger] leads_to(arcs@, source, x) ==> x < num_nodes,
{
    let mut visited: Vec<bool> = Vec::new();
    let mut i: usize = 0;
    while i < num_nodes
        invariant
            i <= num_nodes,
            visited@.len() == i,
            forall|x: int| 0 <= x < i ==> !visited@[x],
        decreases num_nodes - i,
    {
        visited.push(false);
        i = i + 1;
    }
    let mut stack: Vec<usize> = Vec::new();
    stack.push(source);
    proof {
        lemma_leads_to_self(arcs@, source);
        assert(stack@[0] == source);
    }
    while stack.len() > 0
        invariant
            source < num_nodes,
            succ@.len() == num_nodes,
            forall|u: int, v: usize| 0 <= u < num_nodes ==> (#[trigger] succ@[u]@.contains(v) <==> has_arc(arcs@, u as usize, v)),
            forall|k: int| 0 <= k < arcs@.len() ==> (#[trigger] arcs@[k]).0 < num_nodes && arcs@[k].1 < num_nodes,
            visited@.len() == num_nodes,
            visited@[source as int] || stack@.contains(source),
            forall|x: usize| x < num_nodes && #[trigger] visited@[x as int] ==> leads_to(arcs@, source, x),
            forall|j: int| 0 <= j < stack@.len() ==> #[trigger] stack@[j] < num_nodes && leads_to(arcs@, source, stack@[j]),
            forall|x: usize, y: usize|
                x < num_nodes && visited@[x as int] && #[trigger] has_arc(arcs@, x, y) ==> visited@[y as int]
                    || stack@.contains(y),
        decreases count_unvisited(visited@), stack@.len(),
    {
        let ghost pre_stack = stack@;
        let current = stack.pop().unwrap();
        assert(pre_stack == stack@.push(current));
        assert(pre_stack[pre_stack.len() - 1] == current);
        if !visited[current] {
            proof {
                lemma_count_unvisited_mark(visited@, current as int);
            }
            let ghost pre_visited = visited@;
            visited.set(current, true);
            let nb = &succ[current];
            let ghost base = stack@;
            let mut j: usize = 0;
            while j < nb.len()
                invariant
                    j <= nb@.len(),
                    current < num_nodes,
                    nb@ == succ@[current as int]@,
                    forall|u: int, v: usize| 0 <= u < num_nodes ==> (#[trigger] succ@[u]@.contains(v) <==> has_arc(arcs@, u as usize, v)),
                    forall|k: int| 0 <= k < arcs@.len() ==> (#[trigger] arcs@[k]).0 < num_nodes && arcs@[k].1 < num_nodes,
                    leads_to(arcs@, source, current),
                    stack@.len() == base.len() + j,
                    forall|jj: int| 0 <= jj < base.len() ==> stack@[jj] == base[jj],
                    forall|jj: int| 0 <= jj < j ==> stack@[base.len() + jj] == nb@[jj],
                    forall|jj: int| 0 <= jj < base.len() ==> #[trigger] base[jj] < num_nodes && leads_to(arcs@, source, base[jj]),
                    forall|jj: int| 0 <= jj < stack@.len() ==> #[trigger] stack@[jj] < num_nodes && leads_to(arcs@, source, stack@[jj]),
                decreases nb@.len() - j,
            {
                let y = nb[j];
                proof {
                    assert(succ@[current as int]@.contains(y));
                    assert(has_arc(arcs@, current, y));
                    let k = choose|k: int| 0 <= k < arcs@.len() && #[trigger] arcs@[k] == (current, y);
                    lemma_leads_to_step(arcs@, source, current, y);
                }
                stack.push(y);
                j = j + 1;
            }
            proof {
                assert forall|x: usize, y: usize|
                    x < num_nodes && visited@[x as int] && #[trigger] has_arc(arcs@, x, y) implies visited@[y as int]
                        || stack@.contains(y) by {
                    if x == current {
                        assert(succ@[current as int]@.contains(y));
                        let jj = choose|jj: int| 0 <= jj < nb@.len() && nb@[jj] == y;
                        assert(stack@[base.len() + jj] == y);
                    } else {
                        assert(pre_visited[x as int]);
                        if !pre_visited[y as int] {
                            assert(pre_stack.contains(y));
                            let w = choose|w: int| 0 <= w < pre_stack.len() && pre_stack[w] == y;
                            if w < pre_stack.len() - 1 {
                                assert(base[w] == y);
                                assert(stack@[w] == y);
                            } else {
                                assert(y == current);
                            }
                        }
                    }
                }
                if !visited@[source as int] {
                    let w = choose|w: int| 0 <= w < pre_stack.len() && pre_stack[w] == source;
                    if w < pre_stack.len() - 1 {
                        assert(base[w] == source);
                        assert(stack@[w] == source);
                    }
                }
            }
        } else {
            proof {
                assert forall|x: usize, y: usize|
                    x < num_nodes && visited@[x as int] && #[trigger] has_arc(arcs@, x, y) implies visited@[y as int]
                        || stack@.contains(y) by {
                    if !visited@[y as int] {
                        assert(pre_stack.contains(y));
                        let w = choose|w: int| 0 <= w < pre_stack.len() && pre_stack[w] == y;
                        if w < pre_stack.len() - 1 {
                            assert(stack@[w] == y);
                        }
                    }
                }
                if !visited@[source as int] {
                    let w = choose|w: int| 0 <= w < pre_stack.len() && pre_stack[w] == source;
                    if w < pre_stack.len() - 1 {
                        assert(stack@[w] == source);
                    }
                }
            }
        }
    }
    proof {
        let full = visited@;
        assert(stack@.len() == 0);
        assert forall|x: usize, y: usize| x < full.len() && full[x as int] && #[trigger] has_arc(arcs@, x, y)
            implies y < full.len() && full[y as int] by {
            let k = choose|k: int| 0 <= k < arcs@.len() && #[trigger] arcs@[k] == (x, y);
            assert(!stack@.contains(y));
        }
        lemma_marks_hold_reachable(arcs@, full, source);
    }
    visited
}

/// The marked positions, in increasing order.
fn marked_positions(visited: &Vec<bool>) -> (out: Vec<usize>)
    ensures
        forall|a: int, b: int| 0 <= a < b < out@.len() ==> out@[a] < out@[b],
        forall|z: usize| #[trigger] out@.contains(z) <==> (z < visited@.len() && visited@[z as int]),
{
    let num_nodes = visited.len();
    let mut out: Vec<usize> = Vec::new();
    let mut x: usize = 0;
    while x < num_nodes
        invariant
            x <= num_nodes,
            visited@.len() == num_nodes,
            forall|a: int, b: int| 0 <= a < b < out@.len() ==> out@[a] < out@[b],
            forall|a: int| 0 <= a < out@.len() ==> out@[a] < x,
            forall|z: usize| #[trigger] out@.contains(z) <==> (z < x && visited@[z as int]),
        decreases num_nodes - x,
    {
        let ghost before = out@;
        if visited[x] {
            out.push(x);
        }
        proof {
            assert forall|z: usize| #[trigger] out@.contains(z) <==> (z < x + 1 && visited@[z as int]) by {
                if out@.contains(z) {
                    let w = choose|w: int| 0 <= w < out@.len() && out@[w] == z;
                    if w < before.len() {
                        assert(before[w] == z);
                        assert(before.contains(z));
                    }
                }
                if z < x && visited@[z as int] {
                    assert(before.contains(z));
                    let w = choose|w: int| 0 <= w < before.len() && before[w] == z;
                    assert(out@[w] == z);
                }
                if z == x && visited@[z as int] {
                    assert(out@[out@.len() - 1] == z);
                }
            }
        }
        x = x + 1;
    }
    out
}

/// The nodes that `source` leads to along the arcs, in increasing order, or
/// `None` when it leads to `sink`.
pub fn forward_component(num_nodes: usize, arcs: &[(usize, usize)], source: usize, sink: usize) -> (r: Option<
    Vec<usize>,
>)
    requires
        source < num_nodes,
        forall|k: int| 0 <= k < arcs@.len() ==> (#[trigger] arcs@[k]).0 < num_nodes && arcs@[k].1 < num_nodes,
    ensures
        r is None <==> leads_to(arcs@, source, sink),
        r matches Some(v) ==> {
            &&& forall|a: int, b: int| 0 <= a < b < v@.len() ==> v@[a] < v@[b]
            &&& forall|x: usize| #[trigger] v@.contains(x) <==> leads_to(arcs@, source, x)
        },
{
    let succ = successor_lists(num_nodes, arcs);
    let visited = reached_nodes(num_nodes, arcs, &succ, source);
    if sink < num_nodes && visited[sink] {
        return None;
    }
    let out = marked_positions(&visited);
    assert forall|x: usize| #[trigger] out@.contains(x) <==> leads_to(arcs@, source, x) by {
        if leads_to(arcs@, source, x) {
            assert(visited@[x as int]);
        }
    }
    Some(out)
}

} // verus!
