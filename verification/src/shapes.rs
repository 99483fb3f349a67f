//! Structural facts about the generated fleet shapes: complete graphs, paths
//! and stars are connected; a barbell is connected, through a single bridge;
//! two separate cliques are not connected; the hub of a star is a cut agent.

use vstd::prelude::*;
use crate::bottleneck::{is_bridge, is_cut_agent};
use crate::fleet_graph::{joins, positive_bits, CommEdge, FleetGraph, UNIT_BITS};
use crate::generators::{clique_edges, clique_row, path_edges, star_edges, unit_edge};
use crate::paths::{
    all_reachable, closed_under_links, is_distance, lemma_closed_reach, lemma_reachable_symmetric,
    lemma_reachable_trans, lemma_within_bounds, lemma_within_mono, lemma_within_split,
    lemma_within_step, lemma_within_zero, lemma_within_zero_same, link, reachable, well_shaped,
    within, without_agent, without_link,
};
use crate::reorganization::is_diameter;

verus! {

/// A unit channel between two agents of the fleet links them.
proof fn lemma_unit_links(g: &FleetGraph, i: int, j: int)
    requires
        0 <= i < g.agents@.len(),
        0 <= j < g.agents@.len(),
        g.edges@.contains(unit_edge(i, j)),
    ensures
        link(g.adjacency(), i, j),
        link(g.adjacency(), j, i),
{
    assert(positive_bits(UNIT_BITS));
    assert(g.agents.len() == g.agents@.len());
    let k = choose|k: int| 0 <= k < g.edges@.len() && g.edges@[k] == unit_edge(i, j);
    assert(joins(g.edges@[k], i, j));
    assert(joins(g.edges@[k], j, i));
}

/// Two linked agents reach each other.
proof fn lemma_link_reach(adj: Seq<Seq<bool>>, i: int, j: int)
    requires
        link(adj, i, j),
    ensures
        reachable(adj, i, j),
{
    lemma_within_zero(adj, i);
    lemma_within_step(adj, i, i, j, 0);
}

/// An agent reaches itself.
proof fn lemma_reach_self(adj: Seq<Seq<bool>>, i: int)
    requires
        0 <= i < adj.len(),
    ensures
        reachable(adj, i, i),
{
    lemma_within_zero(adj, i);
}

/// Membership in the first part of a concatenation.
proof fn lemma_contains_left(a: Seq<CommEdge>, b: Seq<CommEdge>, x: CommEdge)
    requires
        a.contains(x),
    ensures
        (a + b).contains(x),
{
    let k = choose|k: int| 0 <= k < a.len() && a[k] == x;
    assert((a + b)[k] == x);
}

/// Membership in the second part of a concatenation.
proof fn lemma_contains_right(a: Seq<CommEdge>, b: Seq<CommEdge>, x: CommEdge)
    requires
        b.contains(x),
    ensures
        (a + b).contains(x),
{
    let k = choose|k: int| 0 <= k < b.len() && b[k] == x;
    assert((a + b)[a.len() + k] == x);
}

/// A clique row from agent `i` holds a unit channel to every other agent of its range.
proof fn lemma_clique_row_has(lo: int, i: int, end: int, j: int)
    requires
        lo <= j < end,
        j != i,
    ensures
        clique_row(lo, i, end).contains(unit_edge(i, j)),
    decreases end - lo,
{
    if j == end - 1 {
        let r = clique_row(lo, i, end);
        assert(r[r.len() - 1] == unit_edge(i, j));
    } else {
        lemma_clique_row_has(lo, i, end - 1, j);
        let x = if end - 1 != i {
            seq![unit_edge(i, end - 1)]
        } else {
            Seq::empty()
        };
        lemma_contains_left(clique_row(lo, i, end - 1), x, unit_edge(i, j));
    }
}

/// A clique holds a unit channel between every two distinct agents of its range.
proof fn lemma_clique_has(lo: int, hi: int, end: int, i: int, j: int)
    requires
        lo <= i < end,
        lo <= j < hi,
        i != j,
    ensures
        clique_edges(lo, hi, end).contains(unit_edge(i, j)),
    decreases end - lo,
{
    if i == end - 1 {
        lemma_clique_row_has(lo, i, hi, j);
        lemma_contains_right(clique_edges(lo, hi, end - 1), clique_row(lo, i, hi), unit_edge(i, j));
    } else {
        lemma_clique_has(lo, hi, end - 1, i, j);
        lemma_contains_left(clique_edges(lo, hi, end - 1), clique_row(lo, end - 1, hi), unit_edge(i, j));
    }
}

/// Every channel of a clique row leaves agent `i` for an agent of the range.
proof fn lemma_clique_row_bounds(lo: int, i: int, end: int, k: int)
    requires
        0 <= lo,
        end <= usize::MAX,
        0 <= i <= usize::MAX,
        0 <= k < clique_row(lo, i, end).len(),
    ensures
        clique_row(lo, i, end)[k].from == i,
        lo <= clique_row(lo, i, end)[k].to < end,
    decreases end - lo,
{
    if end > lo {
        let p = clique_row(lo, i, end - 1);
        if k < p.len() {
            lemma_clique_row_bounds(lo, i, end - 1, k);
        }
    }
}

/// Every channel of a clique on `[lo, hi)` joins two of its agents.
proof fn lemma_clique_bounds(lo: int, hi: int, end: int, k: int)
    requires
        0 <= lo,
        end <= hi <= usize::MAX,
        0 <= k < clique_edges(lo, hi, end).len(),
    ensures
        lo <= clique_edges(lo, hi, end)[k].from < hi,
        lo <= clique_edges(lo, hi, end)[k].to < hi,
    decreases end - lo,
{
    if end > lo {
        let p = clique_edges(lo, hi, end - 1);
        if k < p.len() {
            lemma_clique_bounds(lo, hi, end - 1, k);
        } else {
            lemma_clique_row_bounds(lo, end - 1, hi, k - p.len());
        }
    }
}

/// A path holds a unit channel from each agent to the next one.
proof fn lemma_path_has(m: int, i: int)
    requires
        0 <= i < m,
    ensures
        path_edges(m).contains(unit_edge(i, i + 1)),
    decreases m,
{
    let x = seq![unit_edge(m - 1, m), unit_edge(m, m - 1)];
    if i == m - 1 {
        assert(x[0] == unit_edge(i, i + 1));
        lemma_contains_right(path_edges(m - 1), x, unit_edge(i, i + 1));
    } else {
        lemma_path_has(m - 1, i);
        lemma_contains_left(path_edges(m - 1), x, unit_edge(i, i + 1));
    }
}

/// A star holds a unit channel from the hub to each other agent.
proof fn lemma_star_has(m: int, i: int)
    requires
        1 <= i < m,
    ensures
        star_edges(m).contains(unit_edge(0, i)),
    decreases m,
{
    let x = seq![unit_edge(0, m - 1), unit_edge(m - 1, 0)];
    if i == m - 1 {
        assert(x[0] == unit_edge(0, i));
        lemma_contains_right(star_edges(m - 1), x, unit_edge(0, i));
    } else {
        lemma_star_has(m - 1, i);
        lemma_contains_left(star_edges(m - 1), x, unit_edge(0, i));
    }
}

/// Every channel of a star touches its hub.
proof fn lemma_star_bounds(m: int, k: int)
    requires
        0 <= k < star_edges(m).len(),
    ensures
        star_edges(m)[k].from == 0 || star_edges(m)[k].to == 0,
    decreases m,
{
    if m > 1 {
        let p = star_edges(m - 1);
        if k < p.len() {
            lemma_star_bounds(m - 1, k);
        }
    }
}

/// If every agent reaches `hub`, the fleet is connected.
proof fn lemma_all_through_hub(adj: Seq<Seq<bool>>, hub: int)
    requires
        well_shaped(adj),
        forall|t: int| 0 <= t < adj.len() ==> #[trigger] reachable(adj, hub, t),
    ensures
        all_reachable(adj),
{
    assert forall|s: int, t: int| 0 <= s < adj.len() && 0 <= t < adj.len() implies #[trigger] reachable(adj, s, t) by {
        assert(reachable(adj, hub, s));
        assert(reachable(adj, hub, t));
        lemma_reachable_symmetric(adj, hub, s);
        lemma_reachable_trans(adj, s, hub, t);
    }
}

/// A complete graph is connected: every agent reaches every other one.
pub proof fn lemma_complete_connected(g: &FleetGraph)
    requires
        g.wf(),
        g.edges@ == clique_edges(0, g.agents@.len() as int, g.agents@.len() as int),
    ensures
        all_reachable(g.adjacency()),
{
    let n = g.agents@.len() as int;
    let adj = g.adjacency();
    assert forall|s: int, t: int| 0 <= s < n && 0 <= t < n implies #[trigger] reachable(adj, s, t) by {
        if s == t {
            lemma_reach_self(adj, s);
        } else {
            lemma_clique_has(0, n, n, s, t);
            lemma_unit_links(g, s, t);
            lemma_link_reach(adj, s, t);
        }
    }
}

/// A path graph is connected.
pub proof fn lemma_path_connected(g: &FleetGraph)
    requires
        g.wf(),
        g.edges@ == path_edges(g.agents@.len() - 1),
    ensures
        all_reachable(g.adjacency()),
{
    let n = g.agents@.len() as int;
    let adj = g.adjacency();
    lemma_adjacency_shaped(g);
    if n > 0 {
        assert forall|t: int| 0 <= t < n implies #[trigger] reachable(adj, 0, t) by {
            lemma_path_reach(g, t);
        }
        lemma_all_through_hub(adj, 0);
    }
}

/// On a path, the first agent reaches every agent.
proof fn lemma_path_reach(g: &FleetGraph, t: int)
    requires
        g.edges@ == path_edges(g.agents@.len() - 1),
        0 <= t < g.agents@.len(),
    ensures
        reachable(g.adjacency(), 0, t),
    decreases t,
{
    let adj = g.adjacency();
    if t == 0 {
        lemma_reach_self(adj, 0);
    } else {
        lemma_path_reach(g, t - 1);
        lemma_path_has(g.agents@.len() - 1, t - 1);
        lemma_unit_links(g, t - 1, t);
        lemma_link_reach(adj, t - 1, t);
        lemma_reachable_trans(adj, 0, t - 1, t);
    }
}

/// A star graph is connected.
pub proof fn lemma_star_connected(g: &FleetGraph)
    requires
        g.wf(),
        g.edges@ == star_edges(g.agents@.len() as int),
    ensures
        all_reachable(g.adjacency()),
{
    let n = g.agents@.len() as int;
    let adj = g.adjacency();
    lemma_adjacency_shaped(g);
    if n > 0 {
        assert forall|t: int| 0 <= t < n implies #[trigger] reachable(adj, 0, t) by {
            if t == 0 {
                lemma_reach_self(adj, 0);
            } else {
                lemma_star_has(n, t);
                lemma_unit_links(g, 0, t);
                lemma_link_reach(adj, 0, t);
            }
        }
        lemma_all_through_hub(adj, 0);
    }
}

/// The live-channel matrix of any fleet is square and symmetric.
pub proof fn lemma_adjacency_shaped(g: &FleetGraph)
    ensures
        well_shaped(g.adjacency()),
{
    let n = g.agents@.len() as int;
    let adj = g.adjacency();
    assert forall|i: int, j: int| 0 <= i < n && 0 <= j < n implies #[trigger] adj[i][j] == adj[j][i] by {
        if g.linked(i, j) {
            let k = choose|k: int| 0 <= k < g.edges@.len() && #[trigger] joins(g.edges@[k], i, j);
            assert(joins(g.edges@[k], j, i));
        }
        if g.linked(j, i) {
            let k = choose|k: int| 0 <= k < g.edges@.len() && #[trigger] joins(g.edges@[k], j, i);
            assert(joins(g.edges@[k], i, j));
        }
    }
}

/// The two halves of a barbell (or of two separate cliques) on `2k` agents.
pub open spec fn two_clique_edges(k: int) -> Seq<CommEdge> {
    clique_edges(0, k, k) + clique_edges(k, 2 * k, 2 * k)
}

/// In two cliques, every channel stays on one side of `k`.
proof fn lemma_two_cliques_sides(k: int, q: int)
    requires
        0 <= k,
        2 * k <= usize::MAX,
        0 <= q < two_clique_edges(k).len(),
    ensures
        (two_clique_edges(k)[q].from < k) == (two_clique_edges(k)[q].to < k),
{
    let a = clique_edges(0, k, k);
    if q < a.len() {
        lemma_clique_bounds(0, k, k, q);
    } else {
        lemma_clique_bounds(k, 2 * k, 2 * k, q - a.len());
    }
}

/// A barbell is connected.
pub proof fn lemma_barbell_connected(g: &FleetGraph, k: int)
    requires
        g.wf(),
        1 <= k,
        g.agents@.len() == 2 * k,
        g.edges@ == two_clique_edges(k) + seq![unit_edge(k - 1, k), unit_edge(k, k - 1)],
    ensures
        all_reachable(g.adjacency()),
{
    let adj = g.adjacency();
    let n = 2 * k;
    let bridge = seq![unit_edge(k - 1, k), unit_edge(k, k - 1)];
    lemma_adjacency_shaped(g);
    assert(bridge[0] == unit_edge(k - 1, k));
    lemma_contains_right(two_clique_edges(k), bridge, unit_edge(k - 1, k));
    lemma_unit_links(g, k - 1, k);
    lemma_link_reach(adj, k - 1, k);
    assert forall|t: int| 0 <= t < n implies #[trigger] reachable(adj, k - 1, t) by {
        if t == k - 1 {
            lemma_reach_self(adj, t);
        } else if t < k {
            lemma_clique_has(0, k, k, k - 1, t);
            lemma_contains_left(clique_edges(0, k, k), clique_edges(k, 2 * k, 2 * k), unit_edge(k - 1, t));
            lemma_contains_left(two_clique_edges(k), bridge, unit_edge(k - 1, t));
            lemma_unit_links(g, k - 1, t);
            lemma_link_reach(adj, k - 1, t);
        } else if t == k {
        } else {
            lemma_clique_has(k, 2 * k, 2 * k, k, t);
            lemma_contains_right(clique_edges(0, k, k), clique_edges(k, 2 * k, 2 * k), unit_edge(k, t));
            lemma_contains_left(two_clique_edges(k), bridge, unit_edge(k, t));
            lemma_unit_links(g, k, t);
            lemma_link_reach(adj, k, t);
            lemma_reachable_trans(adj, k - 1, k, t);
        }
    }
    lemma_all_through_hub(adj, k - 1);
}

/// The agents below `k`.
spec fn below(n: int, k: int) -> Seq<bool> {
    Seq::new(n as nat, |i: int| i < k)
}

/// Two separate cliques (`k >= 1`) are not connected: agent 0 cannot reach agent `k`.
pub proof fn lemma_two_cliques_disconnected(g: &FleetGraph, k: int)
    requires
        g.wf(),
        1 <= k,
        g.agents@.len() == 2 * k,
        g.edges@ == two_clique_edges(k),
    ensures
        !reachable(g.adjacency(), 0, k),
        !all_reachable(g.adjacency()),
{
    let adj = g.adjacency();
    let n = 2 * k;
    let marked = below(n, k);
    assert(g.agents.len() == g.agents@.len());
    assert(closed_under_links(adj, marked)) by {
        assert forall|u: int, j: int| 0 <= u < adj.len() && marked[u] && #[trigger] link(adj, u, j) implies marked[j] by {
            let q = choose|q: int| 0 <= q < g.edges@.len() && #[trigger] joins(g.edges@[q], u, j);
            lemma_two_cliques_sides(k, q);
        }
    }
    if reachable(adj, 0, k) {
        let m = choose|m: nat| #[trigger] within(adj, 0, k, m);
        lemma_closed_reach(adj, marked, 0, k, m);
    }
}

/// The bridge of a barbell is a bridge: without it, its two ends are separated.
pub proof fn lemma_barbell_bridge(g: &FleetGraph, k: int)
    requires
        g.wf(),
        1 <= k,
        g.agents@.len() == 2 * k,
        g.edges@ == two_clique_edges(k) + seq![unit_edge(k - 1, k), unit_edge(k, k - 1)],
    ensures
        is_bridge(g.adjacency(), k - 1, k),
{
    let adj = g.adjacency();
    let n = 2 * k;
    let bridge = seq![unit_edge(k - 1, k), unit_edge(k, k - 1)];
    let h = without_link(adj, k - 1, k);
    let marked = below(n, k);
    assert(g.agents.len() == g.agents@.len());
    assert(bridge[0] == unit_edge(k - 1, k));
    lemma_contains_right(two_clique_edges(k), bridge, unit_edge(k - 1, k));
    lemma_unit_links(g, k - 1, k);
    assert(closed_under_links(h, marked)) by {
        assert forall|u: int, j: int| 0 <= u < h.len() && marked[u] && #[trigger] link(h, u, j) implies marked[j] by {
            assert(adj[u][j]);
            let q = choose|q: int| 0 <= q < g.edges@.len() && #[trigger] joins(g.edges@[q], u, j);
            let c = two_clique_edges(k);
            if q < c.len() {
                assert(g.edges@[q] == c[q]);
                lemma_two_cliques_sides(k, q);
            } else {
                assert(g.edges@[q] == bridge[q - c.len()]);
            }
        }
    }
    if reachable(h, k - 1, k) {
        let m = choose|m: nat| #[trigger] within(h, k - 1, k, m);
        lemma_closed_reach(h, marked, k - 1, k, m);
    }
}

/// Every channel of a path joins consecutive agents.
proof fn lemma_path_steps(m: int, q: int)
    requires
        0 <= m,
        m + 1 <= usize::MAX,
        0 <= q < path_edges(m).len(),
    ensures
        path_edges(m)[q].from + 1 == path_edges(m)[q].to || path_edges(m)[q].to + 1 == path_edges(m)[q].from,
    decreases m,
{
    if m > 0 {
        let p = path_edges(m - 1);
        if q < p.len() {
            lemma_path_steps(m - 1, q);
        }
    }
}

/// On a path, walks of `k` links move at most `k` positions.
proof fn lemma_path_walk_bound(g: &FleetGraph, s: int, t: int, k: nat)
    requires
        g.agents@.len() >= 1,
        g.edges@ == path_edges(g.agents@.len() - 1),
        within(g.adjacency(), s, t, k),
    ensures
        t - s <= k,
        s - t <= k,
    decreases k,
{
    let adj = g.adjacency();
    if k == 0 {
        lemma_within_zero_same(adj, s, t);
    } else if within(adj, s, t, (k - 1) as nat) {
        lemma_path_walk_bound(g, s, t, (k - 1) as nat);
    } else {
        let u = lemma_within_split(adj, s, t, k);
        lemma_path_walk_bound(g, s, u, (k - 1) as nat);
        assert(g.agents.len() == g.agents@.len());
        let q = choose|q: int| 0 <= q < g.edges@.len() && #[trigger] joins(g.edges@[q], u, t);
        lemma_path_steps(g.agents@.len() - 1, q);
    }
}

/// On a path, agent `s` reaches agent `t` within `|t - s|` links.
proof fn lemma_path_walk(g: &FleetGraph, s: int, t: int)
    requires
        g.edges@ == path_edges(g.agents@.len() - 1),
        0 <= s <= t < g.agents@.len(),
    ensures
        within(g.adjacency(), s, t, (t - s) as nat),
        within(g.adjacency(), t, s, (t - s) as nat),
    decreases t - s,
{
    let adj = g.adjacency();
    if t == s {
        lemma_within_zero(adj, s);
    } else {
        lemma_path_walk(g, s, t - 1);
        lemma_path_has(g.agents@.len() - 1, t - 1);
        lemma_unit_links(g, t - 1, t);
        lemma_within_step(adj, s, t - 1, t, (t - 1 - s) as nat);
        lemma_within_zero(adj, t);
        lemma_within_step(adj, t, t, t - 1, 0);
        crate::paths::lemma_within_concat(adj, t, t - 1, s, 1, (t - 1 - s) as nat);
    }
}

/// A path on `n >= 1` agents has diameter `n - 1`.
pub proof fn lemma_path_diameter(g: &FleetGraph)
    requires
        g.wf(),
        g.agents@.len() >= 1,
        g.edges@ == path_edges(g.agents@.len() - 1),
    ensures
        is_diameter(g.adjacency(), (g.agents@.len() - 1) as nat),
{
    let adj = g.adjacency();
    let n = g.agents@.len() as int;
    assert forall|s: int, t: int| #[trigger] reachable(adj, s, t) implies within(adj, s, t, (n - 1) as nat) by {
        let k = choose|k: nat| #[trigger] within(adj, s, t, k);
        lemma_within_bounds(adj, s, t, k);
        if s <= t {
            lemma_path_walk(g, s, t);
            lemma_within_mono(adj, s, t, (t - s) as nat, (n - 1) as nat);
        } else {
            lemma_path_walk(g, t, s);
            lemma_within_mono(adj, s, t, (s - t) as nat, (n - 1) as nat);
        }
    }
    if n > 1 {
        lemma_path_walk(g, 0, n - 1);
        assert forall|k: nat| k < n - 1 implies !#[trigger] within(adj, 0, n - 1, k) by {
            if within(adj, 0, n - 1, k) {
                lemma_path_walk_bound(g, 0, n - 1, k);
            }
        }
        assert(is_distance(adj, 0, n - 1, (n - 1) as nat));
    }
}

/// A complete graph on at least two agents has diameter 1.
pub proof fn lemma_complete_diameter(g: &FleetGraph)
    requires
        g.wf(),
        g.agents@.len() >= 2,
        g.edges@ == clique_edges(0, g.agents@.len() as int, g.agents@.len() as int),
    ensures
        is_diameter(g.adjacency(), 1),
{
    let adj = g.adjacency();
    let n = g.agents@.len() as int;
    assert forall|s: int, t: int| #[trigger] reachable(adj, s, t) implies within(adj, s, t, 1) by {
        let k = choose|k: nat| #[trigger] within(adj, s, t, k);
        lemma_within_bounds(adj, s, t, k);
        lemma_within_zero(adj, s);
        if s == t {
            lemma_within_mono(adj, s, t, 0, 1);
        } else {
            lemma_clique_has(0, n, n, s, t);
            lemma_unit_links(g, s, t);
            lemma_within_step(adj, s, s, t, 0);
        }
    }
    lemma_clique_has(0, n, n, 0, 1);
    lemma_unit_links(g, 0, 1);
    lemma_within_zero(adj, 0);
    lemma_within_step(adj, 0, 0, 1, 0);
    assert forall|k: nat| k < 1 implies !#[trigger] within(adj, 0, 1, k) by {
        if within(adj, 0, 1, k) {
            lemma_within_zero_same(adj, 0, 1);
        }
    }
    assert(is_distance(adj, 0, 1, 1));
}

/// The hub of a star on at least three agents is a cut agent.
pub proof fn lemma_star_hub_cut(g: &FleetGraph)
    requires
        g.wf(),
        g.agents@.len() >= 3,
        g.edges@ == star_edges(g.agents@.len() as int),
    ensures
        is_cut_agent(g.adjacency(), 0),
{
    let adj = g.adjacency();
    let n = g.agents@.len() as int;
    let h = without_agent(adj, 0);
    lemma_adjacency_shaped(g);
    lemma_star_has(n, 1);
    lemma_star_has(n, 2);
    lemma_unit_links(g, 0, 1);
    lemma_unit_links(g, 0, 2);
    lemma_link_reach(adj, 0, 1);
    lemma_link_reach(adj, 0, 2);
    lemma_reachable_symmetric(adj, 0, 1);
    lemma_reachable_trans(adj, 1, 0, 2);
    let marked = Seq::new(n as nat, |i: int| i == 1);
    assert(closed_under_links(h, marked)) by {
        assert forall|u: int, j: int| 0 <= u < h.len() && marked[u] && #[trigger] link(h, u, j) implies marked[j] by {
            assert(adj[u][j]);
            let q = choose|q: int| 0 <= q < g.edges@.len() && #[trigger] joins(g.edges@[q], u, j);
            lemma_star_bounds(n, q);
        }
    }
    if reachable(h, 1, 2) {
        let m = choose|m: nat| #[trigger] within(h, 1, 2, m);
        lemma_closed_reach(h, marked, 1, 2, m);
    }
    assert(reachable(adj, 1, 2) && !reachable(h, 1, 2));
}

/// A clique row from `i` over `[lo, end)`: one unit channel from `i` to each
/// other agent of the range.
proof fn lemma_clique_row_shape(lo: int, i: int, end: int)
    requires
        0 <= lo,
        0 <= i <= usize::MAX,
        end <= usize::MAX,
    ensures
        clique_row(lo, i, end).len() == if lo < end {
            end - lo - if lo <= i < end { 1int } else { 0 }
        } else {
            0
        },
        forall|k: int|
            0 <= k < clique_row(lo, i, end).len() ==> {
                let e = #[trigger] clique_row(lo, i, end)[k];
                &&& e == unit_edge(e.from as int, e.to as int)
                &&& e.from == i
                &&& lo <= e.to < end
                &&& e.to != i
            },
    decreases end - lo,
{
    if end > lo {
        lemma_clique_row_shape(lo, i, end - 1);
        let p = clique_row(lo, i, end - 1);
        let r = clique_row(lo, i, end);
        assert forall|k: int| 0 <= k < r.len() implies {
            let e = #[trigger] r[k];
            &&& e == unit_edge(e.from as int, e.to as int)
            &&& e.from == i
            &&& lo <= e.to < end
            &&& e.to != i
        } by {
            if k < p.len() {
                assert(r[k] == p[k]);
            }
        }
    }
}

/// The channels of a complete graph on `n` agents: exactly `n * (n - 1)` unit
/// channels, each between two distinct agents, and every ordered pair of
/// distinct agents among them (so each pair exactly once).
pub proof fn lemma_complete_edges_law(n: int)
    requires
        0 <= n <= usize::MAX,
    ensures
        clique_edges(0, n, n).len() == n * (n - 1),
        forall|k: int|
            0 <= k < clique_edges(0, n, n).len() ==> {
                let e = #[trigger] clique_edges(0, n, n)[k];
                &&& e == unit_edge(e.from as int, e.to as int)
                &&& e.from < n
                &&& e.to < n
                &&& e.from != e.to
            },
        forall|i: int, j: int|
            0 <= i < n && 0 <= j < n && i != j ==> #[trigger] clique_edges(0, n, n).contains(unit_edge(i, j)),
{
    lemma_clique_prefix_shape(n, n);
    assert forall|i: int, j: int| 0 <= i < n && 0 <= j < n && i != j implies #[trigger] clique_edges(
        0,
        n,
        n,
    ).contains(unit_edge(i, j)) by {
        lemma_clique_has(0, n, n, i, j);
    }
}

/// The rows `i < end` of a clique on `[0, n)`.
proof fn lemma_clique_prefix_shape(n: int, end: int)
    requires
        0 <= end <= n <= usize::MAX,
    ensures
        clique_edges(0, n, end).len() == end * (n - 1),
        forall|k: int|
            0 <= k < clique_edges(0, n, end).len() ==> {
                let e = #[trigger] clique_edges(0, n, end)[k];
                &&& e == unit_edge(e.from as int, e.to as int)
                &&& e.from < end
                &&& e.to < n
                &&& e.from != e.to
            },
    decreases end,
{
    if end > 0 {
        lemma_clique_prefix_shape(n, end - 1);
        lemma_clique_row_shape(0, end - 1, n);
        let p = clique_edges(0, n, end - 1);
        let row = clique_row(0, end - 1, n);
        let c = clique_edges(0, n, end);
        assert(c == p + row);
        assert(end * (n - 1) == (end - 1) * (n - 1) + (n - 1)) by (nonlinear_arith);
        assert forall|k: int| 0 <= k < c.len() implies {
            let e = #[trigger] c[k];
            &&& e == unit_edge(e.from as int, e.to as int)
            &&& e.from < end
            &&& e.to < n
            &&& e.from != e.to
        } by {
            if k < p.len() {
                assert(c[k] == p[k]);
            } else {
                assert(c[k] == row[k - p.len()]);
            }
        }
    }
}

/// The channels of a path on `n >= 1` agents: exactly `2 * (n - 1)` unit
/// channels, each between neighbours `i` and `i + 1`, and both directions for
/// every `i < n - 1`.
pub proof fn lemma_path_edges_law(n: int)
    requires
        1 <= n <= usize::MAX,
    ensures
        path_edges(n - 1).len() == 2 * (n - 1),
        forall|k: int|
            0 <= k < path_edges(n - 1).len() ==> {
                let e = #[trigger] path_edges(n - 1)[k];
                &&& e == unit_edge(e.from as int, e.to as int)
                &&& e.from < n
                &&& e.to < n
                &&& (e.to == e.from + 1 || e.from == e.to + 1)
            },
        forall|i: int| 0 <= i < n - 1 ==> #[trigger] path_edges(n - 1).contains(unit_edge(i, i + 1)),
        forall|i: int| 0 <= i < n - 1 ==> #[trigger] path_edges(n - 1).contains(unit_edge(i + 1, i)),
{
    lemma_path_prefix_shape(n - 1);
    assert forall|i: int| 0 <= i < n - 1 implies #[trigger] path_edges(n - 1).contains(unit_edge(i, i + 1)) by {
        lemma_path_has(n - 1, i);
    }
    assert forall|i: int| 0 <= i < n - 1 implies #[trigger] path_edges(n - 1).contains(unit_edge(i + 1, i)) by {
        lemma_path_has_back(n - 1, i);
    }
}

/// A path holds a unit channel from each agent back to the previous one.
proof fn lemma_path_has_back(m: int, i: int)
    requires
        0 <= i < m,
    ensures
        path_edges(m).contains(unit_edge(i + 1, i)),
    decreases m,
{
    let x = seq![unit_edge(m - 1, m), unit_edge(m, m - 1)];
    if i == m - 1 {
        assert(x[1] == unit_edge(i + 1, i));
        lemma_contains_right(path_edges(m - 1), x, unit_edge(i + 1, i));
    } else {
        lemma_path_has_back(m - 1, i);
        lemma_contains_left(path_edges(m - 1), x, unit_edge(i + 1, i));
    }
}

/// The channels of a path over `m + 1` agents.
proof fn lemma_path_prefix_shape(m: int)
    requires
        0 <= m < usize::MAX,
    ensures
        path_edges(m).len() == 2 * m,
        forall|k: int|
            0 <= k < path_edges(m).len() ==> {
                let e = #[trigger] path_edges(m)[k];
                &&& e == unit_edge(e.from as int, e.to as int)
                &&& e.from <= m
                &&& e.to <= m
                &&& (e.to == e.from + 1 || e.from == e.to + 1)
            },
    decreases m,
{
    if m > 0 {
        lemma_path_prefix_shape(m - 1);
        let p = path_edges(m - 1);
        let c = path_edges(m);
        assert forall|k: int| 0 <= k < c.len() implies {
            let e = #[trigger] c[k];
            &&& e == unit_edge(e.from as int, e.to as int)
            &&& e.from <= m
            &&& e.to <= m
            &&& (e.to == e.from + 1 || e.from == e.to + 1)
        } by {
            if k < p.len() {
                assert(c[k] == p[k]);
            }
        }
    }
}

/// The channels of a star on `n >= 1` agents with hub 0: exactly
/// `2 * (n - 1)` unit channels, each between the hub and another agent, and
/// both directions for every agent other than the hub.
pub proof fn lemma_star_edges_law(n: int)
    requires
        1 <= n <= usize::MAX,
    ensures
        star_edges(n).len() == 2 * (n - 1),
        forall|k: int|
            0 <= k < star_edges(n).len() ==> {
                let e = #[trigger] star_edges(n)[k];
                &&& e == unit_edge(e.from as int, e.to as int)
                &&& e.from < n
                &&& e.to < n
                &&& (e.from == 0) != (e.to == 0)
            },
        forall|i: int| 1 <= i < n ==> #[trigger] star_edges(n).contains(unit_edge(0, i)),
        forall|i: int| 1 <= i < n ==> #[trigger] star_edges(n).contains(unit_edge(i, 0)),
    decreases n,
{
    if n > 1 {
        lemma_star_edges_law(n - 1);
        let p = star_edges(n - 1);
        let c = star_edges(n);
        let x = seq![unit_edge(0, n - 1), unit_edge(n - 1, 0)];
        assert(c == p + x);
        assert forall|k: int| 0 <= k < c.len() implies {
            let e = #[trigger] c[k];
            &&& e == unit_edge(e.from as int, e.to as int)
            &&& e.from < n
            &&& e.to < n
            &&& (e.from == 0) != (e.to == 0)
        } by {
            if k < p.len() {
                assert(c[k] == p[k]);
            }
        }
        assert forall|i: int| 1 <= i < n implies #[trigger] star_edges(n).contains(unit_edge(0, i)) by {
            lemma_star_has(n, i);
        }
        assert forall|i: int| 1 <= i < n implies #[trigger] star_edges(n).contains(unit_edge(i, 0)) by {
            lemma_star_has_back(n, i);
        }
    }
}

/// A star holds a unit channel from each other agent back to the hub.
proof fn lemma_star_has_back(m: int, i: int)
    requires
        1 <= i < m,
    ensures
        star_edges(m).contains(unit_edge(i, 0)),
    decreases m,
{
    let x = seq![unit_edge(0, m - 1), unit_edge(m - 1, 0)];
    if i == m - 1 {
        assert(x[1] == unit_edge(i, 0));
        lemma_contains_right(star_edges(m - 1), x, unit_edge(i, 0));
    } else {
        lemma_star_has_back(m - 1, i);
        lemma_contains_left(star_edges(m - 1), x, unit_edge(i, 0));
    }
}

} // verus!
