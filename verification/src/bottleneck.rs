//! Bottleneck detection in fleet communication graphs.
//!
//! Identifies agents and channels that are critical to the fleet's structure:
//! - cut agents (articulation points): agents whose removal separates two
//!   agents that could reach each other before;
//! - bridge channels: links whose removal separates their two endpoints;
//! - bypass pairs: neighbors of a bottleneck agent that are not linked to
//!   each other, so that a new channel between them routes around the agent.

use vstd::prelude::*;
use crate::fleet_graph::{strictly_sorted, touches, FleetGraph};
use crate::paths::{
    distances_from, drop_agent, drop_link, grid, has_link, is_distance, lemma_reachable_symmetric,
    lemma_reachable_trans, lemma_within_bounds, lemma_within_split,
    lemma_within_step, lemma_within_zero, link, reachable, well_shaped, within, without_agent,
    without_link,
};

verus! {

/// Removing agent `v` separates two other agents that were connected.
pub open spec fn is_cut_agent(adj: Seq<Seq<bool>>, v: int) -> bool {
    exists|a: int, b: int|
        0 <= a < adj.len() && 0 <= b < adj.len() && a != v && b != v && reachable(adj, a, b)
            && !#[trigger] reachable(without_agent(adj, v), a, b)
}

/// The link between `a < b` is the only route between them.
pub open spec fn is_bridge(adj: Seq<Seq<bool>>, a: int, b: int) -> bool {
    &&& 0 <= a < b < adj.len()
    &&& link(adj, a, b)
    &&& !reachable(without_link(adj, a, b), a, b)
}

/// Pair `p` comes before pair `q` in lexicographic order.
pub open spec fn pair_less(p: (usize, usize), q: (usize, usize)) -> bool {
    p.0 < q.0 || (p.0 == q.0 && p.1 < q.1)
}

/// The pairs of `s` strictly increase in lexicographic order.
pub open spec fn pairs_sorted(s: Seq<(usize, usize)>) -> bool {
    forall|i: int, j: int| 0 <= i < j < s.len() ==> pair_less(#[trigger] s[i], #[trigger] s[j])
}

/// All neighbors of `v` other than `v` stay mutually reachable once `v` is cut off.
pub open spec fn neighbors_stay_joined(adj: Seq<Seq<bool>>, v: int) -> bool {
    forall|y1: int, y2: int|
        #![trigger link(adj, v, y1), link(adj, v, y2)]
        link(adj, v, y1) && y1 != v && link(adj, v, y2) && y2 != v ==> reachable(without_agent(adj, v), y1, y2)
}

/// A walk from `a` (not `v`) in the full graph can be rerouted around `v`
/// whenever `v`'s neighbors stay joined without it.
proof fn lemma_reroute(adj: Seq<Seq<bool>>, v: int, a: int, t: int, k: nat)
    requires
        well_shaped(adj),
        0 <= a < adj.len(),
        a != v,
        neighbors_stay_joined(adj, v),
        within(adj, a, t, k),
    ensures
        t != v ==> reachable(without_agent(adj, v), a, t),
        t == v ==> exists|y: int| link(adj, v, y) && y != v && #[trigger] reachable(without_agent(adj, v), a, y),
    decreases k,
{
    let h = without_agent(adj, v);
    if k == 0 {
        crate::paths::lemma_within_zero_same(adj, a, t);
        lemma_within_zero(h, a);
    } else if within(adj, a, t, (k - 1) as nat) {
        lemma_reroute(adj, v, a, t, (k - 1) as nat);
    } else {
        let u = lemma_within_split(adj, a, t, k);
        lemma_reroute(adj, v, a, u, (k - 1) as nat);
        lemma_within_bounds(adj, a, u, (k - 1) as nat);
        if u != v && t != v {
            assert(link(h, u, t));
            let m = choose|m: nat| #[trigger] within(h, a, u, m);
            lemma_within_step(h, a, u, t, m);
        } else if u != v && t == v {
            assert(link(adj, v, u));
        } else if u == v && t != v {
            let y = choose|y: int| link(adj, v, y) && y != v && #[trigger] reachable(h, a, y);
            assert(link(adj, v, t));
            assert(reachable(h, y, t));
            lemma_reachable_trans(h, a, y, t);
        }
    }
}

/// Agent `j` is a neighbor of agent `i`: some channel runs between them,
/// whatever its bandwidth.
pub open spec fn adjacent(graph: &FleetGraph, i: int, j: int) -> bool {
    exists|k: int| 0 <= k < graph.edges@.len() && #[trigger] touches(graph.edges@[k], i, j)
}

/// Adjacency is symmetric: `j` is a neighbor of `i` exactly when `i` is a neighbor of `j`.
pub proof fn lemma_adjacent_symmetric(graph: &FleetGraph, i: int, j: int)
    ensures
        adjacent(graph, i, j) == adjacent(graph, j, i),
{
    if adjacent(graph, i, j) {
        let k = choose|k: int| 0 <= k < graph.edges@.len() && #[trigger] touches(graph.edges@[k], i, j);
        assert(touches(graph.edges@[k], j, i));
    }
    if adjacent(graph, j, i) {
        let k = choose|k: int| 0 <= k < graph.edges@.len() && #[trigger] touches(graph.edges@[k], j, i);
        assert(touches(graph.edges@[k], i, j));
    }
}

/// Bypass candidates around `agent`: the pairs `(a, b)`, `a < b`, of its
/// neighbors that share no live channel, in increasing lexicographic order.
/// A new channel between such a pair routes traffic around the agent.
pub fn bypass_pairs(graph: &FleetGraph, agent: usize) -> (r: Vec<(usize, usize)>)
    requires
        graph.wf(),
    ensures
        pairs_sorted(r@),
        forall|p: (usize, usize)|
            r@.contains(p) <==> p.0 < p.1 && adjacent(graph, agent as int, p.0 as int) && adjacent(
                graph,
                agent as int,
                p.1 as int,
            ) && !graph.linked(p.0 as int, p.1 as int),
{
    let nb = graph.neighbors(agent);
    let adj = graph.link_matrix();
    let ghost g = grid(adj@);
    let n = adj.len();
    proof {
        assert forall|i: int| 0 <= i < nb@.len() implies #[trigger] nb@[i] < n by {
            assert(nb@.contains(nb@[i]));
            let k = choose|k: int| 0 <= k < graph.edges@.len() && #[trigger] touches(graph.edges@[k], agent as int, nb@[i] as int);
            assert(graph.edges@[k].from < n && graph.edges@[k].to < n);
        }
    }
    let mut r: Vec<(usize, usize)> = Vec::new();
    let mut i: usize = 0;
    while i < nb.len()
        invariant
            n == adj@.len(),
            n == graph.agents@.len(),
            g == grid(adj@),
            g == graph.adjacency(),
            well_shaped(g),
            strictly_sorted(nb@),
            forall|x: int| 0 <= x < nb@.len() ==> #[trigger] nb@[x] < n,
            i <= nb@.len(),
            pairs_sorted(r@),
            forall|k: int| 0 <= k < r@.len() ==> (#[trigger] r@[k]).0 < (if i < nb@.len() { nb@[i as int] } else { usize::MAX }) || i == nb@.len(),
            forall|p: (usize, usize)|
                r@.contains(p) <==> exists|x: int, y: int|
                    0 <= x < i && x < y < nb@.len() && #[trigger] nb@[x] == p.0 && #[trigger] nb@[y] == p.1
                        && !g[p.0 as int][p.1 as int],
        decreases nb@.len() - i,
    {
        let a = nb[i];
        let mut j: usize = i + 1;
        while j < nb.len()
            invariant
                n == adj@.len(),
                g == grid(adj@),
                well_shaped(g),
                strictly_sorted(nb@),
                forall|x: int| 0 <= x < nb@.len() ==> #[trigger] nb@[x] < n,
                i < nb@.len(),
                a == nb@[i as int],
                i + 1 <= j <= nb@.len(),
                pairs_sorted(r@),
                forall|k: int| 0 <= k < r@.len() ==> pair_less(#[trigger] r@[k], (a, if j < nb@.len() { nb@[j as int] } else { usize::MAX })) || (j == nb@.len() && (r@[k]).0 <= a),
                forall|p: (usize, usize)|
                    r@.contains(p) <==> exists|x: int, y: int|
                        (0 <= x < i && x < y < nb@.len() || x == i && x < y < j) && #[trigger] nb@[x] == p.0
                            && #[trigger] nb@[y] == p.1 && !g[p.0 as int][p.1 as int],
            decreases nb@.len() - j,
        {
            let b = nb[j];
            let ghost before = r@;
            if !has_link(&adj, a, b) {
                r.push((a, b));
                proof {
                    assert forall|x: int, y: int| 0 <= x < y < r@.len() implies pair_less(#[trigger] r@[x], #[trigger] r@[y]) by {
                        if y < before.len() {
                            assert(r@[x] == before[x] && r@[y] == before[y]);
                        } else {
                            assert(r@[x] == before[x]);
                        }
                    }
                }
            }
            proof {
                assert forall|k: int| 0 <= k < r@.len() implies pair_less(#[trigger] r@[k], (a, if j + 1 < nb@.len() { nb@[j + 1] } else { usize::MAX })) || (j + 1 == nb@.len() && (r@[k]).0 <= a) by {
                    if k < before.len() {
                        assert(r@[k] == before[k]);
                    }
                    if j + 1 < nb@.len() {
                        assert(nb@[j as int] < nb@[j + 1]);
                    }
                }
                assert forall|p: (usize, usize)|
                    r@.contains(p) <==> exists|x: int, y: int|
                        (0 <= x < i && x < y < nb@.len() || x == i && x < y < j + 1) && #[trigger] nb@[x] == p.0
                            && #[trigger] nb@[y] == p.1 && !g[p.0 as int][p.1 as int] by {
                    if r@.contains(p) && p != (a, b) {
                        let k = choose|k: int| 0 <= k < r@.len() && r@[k] == p;
                        assert(before[k] == p);
                        assert(before.contains(p));
                    }
                    if r@.contains(p) && p == (a, b) && before.contains(p) {
                    }
                    if r@.contains(p) && p == (a, b) && !before.contains(p) {
                        assert(nb@[i as int] == p.0 && nb@[j as int] == p.1);
                        assert(g[a as int][b as int] == adj@[a as int]@[b as int]);
                    }
                    if exists|x: int, y: int|
                        (0 <= x < i && x < y < nb@.len() || x == i && x < y < j + 1) && #[trigger] nb@[x] == p.0
                            && #[trigger] nb@[y] == p.1 && !g[p.0 as int][p.1 as int] {
                        let (x, y) = choose|x: int, y: int|
                            (0 <= x < i && x < y < nb@.len() || x == i && x < y < j + 1) && #[trigger] nb@[x] == p.0
                                && #[trigger] nb@[y] == p.1 && !g[p.0 as int][p.1 as int];
                        if x == i && y == j {
                            assert(r@[r@.len() - 1] == p);
                        } else {
                            assert(before.contains(p));
                            let k = choose|k: int| 0 <= k < before.len() && before[k] == p;
                            assert(r@[k] == p);
                        }
                    }
                }
            }
            j = j + 1;
        }
        proof {
            assert forall|k: int| 0 <= k < r@.len() implies (#[trigger] r@[k]).0 < (if i + 1 < nb@.len() { nb@[i + 1] } else { usize::MAX }) || i + 1 == nb@.len() by {
                if i + 1 < nb@.len() {
                    assert(nb@[i as int] < nb@[i + 1]);
                }
            }
        }
        i = i + 1;
    }
    proof {
        assert forall|p: (usize, usize)|
            r@.contains(p) <==> p.0 < p.1 && adjacent(graph, agent as int, p.0 as int) && adjacent(
                graph,
                agent as int,
                p.1 as int,
            ) && !graph.linked(p.0 as int, p.1 as int) by {
            if r@.contains(p) {
                let (x, y) = choose|x: int, y: int|
                    0 <= x < i && x < y < nb@.len() && #[trigger] nb@[x] == p.0 && #[trigger] nb@[y] == p.1
                        && !g[p.0 as int][p.1 as int];
                assert(nb@.contains(p.0));
                assert(nb@.contains(p.1));
            }
            if p.0 < p.1 && adjacent(graph, agent as int, p.0 as int) && adjacent(graph, agent as int, p.1 as int)
                && !graph.linked(p.0 as int, p.1 as int) {
                assert(nb@.contains(p.0));
                assert(nb@.contains(p.1));
                let x = choose|x: int| 0 <= x < nb@.len() && nb@[x] == p.0;
                let y = choose|y: int| 0 <= y < nb@.len() && nb@[y] == p.1;
                if y <= x {
                    if y < x {
                        assert(nb@[y] < nb@[x]);
                    }
                }
                assert(g[p.0 as int][p.1 as int] == graph.linked(p.0 as int, p.1 as int));
            }
        }
    }
    r
}

/// Find agents whose removal would disconnect the graph (articulation points),
/// in increasing order.
pub fn find_bridge_agents(graph: &FleetGraph) -> (r: Vec<usize>)
    requires
        graph.wf(),
    ensures
        strictly_sorted(r@),
        forall|v: usize| r@.contains(v) <==> v < graph.agents@.len() && is_cut_agent(graph.adjacency(), v as int),
{
    let n = graph.node_count();
    let mut r: Vec<usize> = Vec::new();
    if n <= 2 {
        proof {
            assert forall|v: usize| v < n implies !is_cut_agent(graph.adjacency(), v as int) by {
                if is_cut_agent(graph.adjacency(), v as int) {
                    let g = graph.adjacency();
                    let (a, b) = choose|a: int, b: int|
                        0 <= a < g.len() && 0 <= b < g.len() && a != v && b != v && reachable(g, a, b)
                            && !#[trigger] reachable(without_agent(g, v as int), a, b);
                    assert(a == b);
                    lemma_within_zero(without_agent(g, v as int), a);
                }
            }
        }
        return r;
    }
    let adj = graph.link_matrix();
    let ghost g = grid(adj@);
    let mut v: usize = 0;
    while v < n
        invariant
            n == adj@.len(),
            n == graph.agents@.len(),
            g == grid(adj@),
            g == graph.adjacency(),
            well_shaped(g),
            v <= n,
            strictly_sorted(r@),
            forall|i: int| 0 <= i < r@.len() ==> #[trigger] r@[i] < v,
            forall|x: usize| r@.contains(x) <==> x < v && is_cut_agent(g, x as int),
        decreases n - v,
    {
        let cut = is_cut(&adj, v);
        let ghost before = r@;
        if cut {
            r.push(v);
            proof {
                assert forall|a: int, b: int| 0 <= a < b < r@.len() implies #[trigger] r@[a] < #[trigger] r@[b] by {
                    if b < before.len() {
                        assert(r@[a] == before[a] && r@[b] == before[b]);
                    } else {
                        assert(r@[a] == before[a]);
                    }
                }
            }
        }
        proof {
            assert forall|x: usize| r@.contains(x) <==> x < v + 1 && is_cut_agent(g, x as int) by {
                if r@.contains(x) && x != v {
                    let i = choose|i: int| 0 <= i < r@.len() && r@[i] == x;
                    assert(before[i] == x);
                    assert(before.contains(x));
                }
                if x < v && is_cut_agent(g, x as int) {
                    assert(before.contains(x));
                    let i = choose|i: int| 0 <= i < before.len() && before[i] == x;
                    assert(r@[i] == x);
                }
                if x == v && cut {
                    assert(r@[r@.len() - 1] == v);
                }
                if x == v && !cut && r@.contains(x) {
                    let i = choose|i: int| 0 <= i < r@.len() && r@[i] == x;
                    assert(before[i] < v);
                }
            }
        }
        v = v + 1;
    }
    r
}

/// Decides whether removing agent `v` separates two other agents.
fn is_cut(adj: &Vec<Vec<bool>>, v: usize) -> (cut: bool)
    requires
        well_shaped(grid(adj@)),
        v < adj@.len(),
    ensures
        cut == is_cut_agent(grid(adj@), v as int),
{
    let ghost g = grid(adj@);
    let n = adj.len();
    let mut first: usize = 0;
    while first < n && !(first != v && has_link(adj, v, first))
        invariant
            first <= n,
            n == adj@.len(),
            g == grid(adj@),
            well_shaped(g),
            v < n,
            forall|y: int| 0 <= y < first ==> !(link(g, v as int, y) && y != v),
        decreases n - first,
    {
        first = first + 1;
    }
    let h = drop_agent(adj, v);
    let ghost gh = grid(h@);
    if first == n {
        // `v` has no neighbor besides itself: nothing depends on it.
        proof {
            assert(neighbors_stay_joined(g, v as int));
            lemma_no_cut(g, v as int);
        }
        return false;
    }
    let x0 = first;
    let dist = distances_from(&h, x0);
    let mut y: usize = 0;
    while y < n
        invariant
            n == adj@.len(),
            n == h@.len(),
            g == grid(adj@),
            gh == grid(h@),
            gh == without_agent(g, v as int),
            well_shaped(g),
            v < n,
            x0 < n,
            x0 != v,
            link(g, v as int, x0 as int),
            y <= n,
            dist@.len() == n,
            forall|t: int|
                0 <= t < n ==> match #[trigger] dist@[t] {
                    Some(d) => is_distance(gh, x0 as int, t, d as nat),
                    None => !reachable(gh, x0 as int, t),
                },
            forall|t: int| 0 <= t < y && link(g, v as int, t) && t != v ==> #[trigger] reachable(gh, x0 as int, t),
        decreases n - y,
    {
        if y != v && has_link(adj, v, y) && dist[y].is_none() {
            proof {
                // x0 and y are joined through v, but not without it.
                assert(link(g, x0 as int, v as int));
                lemma_within_zero(g, x0 as int);
                lemma_within_step(g, x0 as int, x0 as int, v as int, 0);
                lemma_within_step(g, x0 as int, v as int, y as int, 1);
                assert(reachable(g, x0 as int, y as int));
                assert(!reachable(without_agent(g, v as int), x0 as int, y as int));
            }
            return true;
        }
        proof {
            if y != v && link(g, v as int, y as int) {
                let d = dist@[y as int].unwrap();
                assert(within(gh, x0 as int, y as int, d as nat));
            }
        }
        y = y + 1;
    }
    proof {
        assert forall|y1: int, y2: int|
            #![trigger link(g, v as int, y1), link(g, v as int, y2)]
            link(g, v as int, y1) && y1 != v && link(g, v as int, y2) && y2 != v implies reachable(
            without_agent(g, v as int),
            y1,
            y2,
        ) by {
            assert(reachable(gh, x0 as int, y1));
            assert(reachable(gh, x0 as int, y2));
            lemma_symmetric_without_agent(g, v as int);
            lemma_reachable_symmetric(gh, x0 as int, y1);
            lemma_reachable_trans(gh, y1, x0 as int, y2);
        }
        lemma_no_cut(g, v as int);
    }
    false
}

/// Cutting an agent off keeps a link matrix square and symmetric.
proof fn lemma_symmetric_without_agent(adj: Seq<Seq<bool>>, v: int)
    requires
        well_shaped(adj),
    ensures
        well_shaped(without_agent(adj, v)),
{
}

/// If `v`'s neighbors stay joined without it, `v` is not a cut agent.
proof fn lemma_no_cut(adj: Seq<Seq<bool>>, v: int)
    requires
        well_shaped(adj),
        neighbors_stay_joined(adj, v),
    ensures
        !is_cut_agent(adj, v),
{
    assert forall|a: int, b: int|
        0 <= a < adj.len() && 0 <= b < adj.len() && a != v && b != v && reachable(adj, a, b) implies #[trigger] reachable(
        without_agent(adj, v),
        a,
        b,
    ) by {
        let k = choose|k: nat| #[trigger] within(adj, a, b, k);
        lemma_reroute(adj, v, a, b, k);
    }
}

/// Find bridge channels whose removal would separate their endpoints, as
/// `(smaller, larger)` pairs in increasing lexicographic order.
pub fn find_bridge_edges(graph: &FleetGraph) -> (r: Vec<(usize, usize)>)
    requires
        graph.wf(),
    ensures
        pairs_sorted(r@),
        forall|p: (usize, usize)| r@.contains(p) <==> is_bridge(graph.adjacency(), p.0 as int, p.1 as int),
{
    let n = graph.node_count();
    let adj = graph.link_matrix();
    let ghost g = grid(adj@);
    let mut r: Vec<(usize, usize)> = Vec::new();
    let mut a: usize = 0;
    while a < n
        invariant
            n == adj@.len(),
            n == graph.agents@.len(),
            g == grid(adj@),
            g == graph.adjacency(),
            well_shaped(g),
            a <= n,
            pairs_sorted(r@),
            forall|i: int| 0 <= i < r@.len() ==> (#[trigger] r@[i]).0 < a,
            forall|p: (usize, usize)| r@.contains(p) <==> p.0 < a && is_bridge(g, p.0 as int, p.1 as int),
        decreases n - a,
    {
        let mut b: usize = a + 1;
        while b < n
            invariant
                n == adj@.len(),
                g == grid(adj@),
                well_shaped(g),
                a < n,
                a + 1 <= b <= n,
                pairs_sorted(r@),
                forall|i: int| 0 <= i < r@.len() ==> pair_less(#[trigger] r@[i], (a, b)),
                forall|p: (usize, usize)|
                    r@.contains(p) <==> (p.0 < a || (p.0 == a && p.1 < b)) && is_bridge(g, p.0 as int, p.1 as int),
            decreases n - b,
        {
            let ghost before = r@;
            let mut bridge = false;
            if has_link(&adj, a, b) {
                let h = drop_link(&adj, a, b);
                let dist = distances_from(&h, a);
                bridge = dist[b].is_none();
                proof {
                    if !bridge {
                        let d = dist@[b as int].unwrap();
                        assert(within(grid(h@), a as int, b as int, d as nat));
                    }
                }
            }
            assert(bridge == is_bridge(g, a as int, b as int));
            if bridge {
                r.push((a, b));
                proof {
                    assert forall|i: int, j: int| 0 <= i < j < r@.len() implies pair_less(#[trigger] r@[i], #[trigger] r@[j]) by {
                        if j < before.len() {
                            assert(r@[i] == before[i] && r@[j] == before[j]);
                        } else {
                            assert(r@[i] == before[i]);
                        }
                    }
                }
            }
            proof {
                assert forall|i: int| 0 <= i < r@.len() implies pair_less(#[trigger] r@[i], (a, (b + 1) as usize)) by {
                    if i < before.len() {
                        assert(r@[i] == before[i]);
                    }
                }
                assert forall|p: (usize, usize)|
                    r@.contains(p) <==> (p.0 < a || (p.0 == a && p.1 < b + 1)) && is_bridge(g, p.0 as int, p.1 as int) by {
                    if r@.contains(p) && p != (a, b) {
                        let i = choose|i: int| 0 <= i < r@.len() && r@[i] == p;
                        assert(before[i] == p);
                        assert(before.contains(p));
                    }
                    if r@.contains(p) && p == (a, b) && !bridge {
                        let i = choose|i: int| 0 <= i < r@.len() && r@[i] == p;
                        assert(pair_less(before[i], (a, b)));
                    }
                    if (p.0 < a || (p.0 == a && p.1 < b)) && is_bridge(g, p.0 as int, p.1 as int) {
                        assert(before.contains(p));
                        let i = choose|i: int| 0 <= i < before.len() && before[i] == p;
                        assert(r@[i] == p);
                    }
                    if p == (a, b) && bridge {
                        assert(r@[r@.len() - 1] == p);
                    }
                }
            }
            b = b + 1;
        }
        proof {
            assert forall|p: (usize, usize)| r@.contains(p) <==> p.0 < a + 1 && is_bridge(g, p.0 as int, p.1 as int) by {
                if p.0 == a && is_bridge(g, p.0 as int, p.1 as int) {
                    assert(p.1 < n);
                }
            }
            assert forall|i: int| 0 <= i < r@.len() implies (#[trigger] r@[i]).0 < a + 1 by {
                assert(pair_less(r@[i], (a, n)));
            }
        }
        a = a + 1;
    }
    proof {
        assert forall|p: (usize, usize)| r@.contains(p) <==> is_bridge(g, p.0 as int, p.1 as int) by {
            if is_bridge(g, p.0 as int, p.1 as int) {
                assert(p.0 < n);
            }
        }
    }
    r
}

} // verus!
