//! Fleet graph representation: agents as nodes, communication channels as edges.
//!
//! A fleet is a directed graph where each node is an AI agent and each edge is
//! a communication or dependency channel. Real-valued quantities (an agent's
//! load, a channel's bandwidth and latency) are carried as the IEEE-754 bit
//! patterns of their `f64` values, so that the structure of the fleet can be
//! verified here while floating-point analysis stays with the caller. A channel
//! is *live* when its bandwidth is strictly positive; connectivity, components
//! and every walk-based measure look only at live channels, treated as
//! undirected.

use vstd::prelude::*;
use crate::paths::{
    all_reachable, closed_under_links, count_true, distances_from, grid, has_link, is_distance,
    lemma_closed_reach, lemma_count_true_bound, lemma_count_true_update, lemma_reachable_symmetric,
    lemma_reachable_trans, lemma_within_bounds, lemma_within_step, lemma_within_symmetric,
    lemma_within_zero, link, reachable, well_shaped, within,
};

verus! {

/// Bit pattern of the `f64` value `1.0`.
pub const UNIT_BITS: u64 = 0x3FF0_0000_0000_0000;

/// Bit pattern of the `f64` value `0.0`.
pub const ZERO_BITS: u64 = 0;

/// The `f64` value with bit pattern `bits` is strictly positive
/// (a positive subnormal, normal or infinite value; NaN and signed zeros are not).
pub open spec fn positive_bits(bits: u64) -> bool {
    0 < bits <= 0x7FF0_0000_0000_0000u64
}

/// Tests whether the `f64` value with bit pattern `bits` is strictly positive.
pub fn is_positive_bits(bits: u64) -> (r: bool)
    ensures
        r == positive_bits(bits),
{
    0 < bits && bits <= 0x7FF0_0000_0000_0000u64
}

/// An agent (node) in the fleet graph.
#[derive(Debug, Clone)]
pub struct AgentNode {
    pub id: String,
    pub capabilities: Vec<String>,
    /// Bit pattern of the current load in [0, 1]: 0 = idle, 1 = fully loaded.
    pub load_bits: u64,
}

impl AgentNode {
    /// An agent with the given id, capabilities and load bits.
    pub fn new(id: String, capabilities: Vec<String>, load_bits: u64) -> (a: Self)
        ensures
            a.id == id,
            a.capabilities == capabilities,
            a.load_bits == load_bits,
    {
        AgentNode { id, capabilities, load_bits }
    }
}

/// A directed communication channel (edge) between two agents.
#[derive(Debug, Clone, Copy)]
pub struct CommEdge {
    pub from: usize,
    pub to: usize,
    /// Bit pattern of the bandwidth (higher = faster).
    pub bandwidth_bits: u64,
    /// Bit pattern of the latency in milliseconds (lower = faster).
    pub latency_bits: u64,
}

impl CommEdge {
    /// A channel `from -> to` with the given bandwidth and latency bits.
    pub fn new(from: usize, to: usize, bandwidth_bits: u64, latency_bits: u64) -> (e: Self)
        ensures
            e == (CommEdge { from, to, bandwidth_bits, latency_bits }),
    {
        CommEdge { from, to, bandwidth_bits, latency_bits }
    }
}


/// Edge `e` is a live channel between `i` and `j`, in either direction.
pub open spec fn joins(e: CommEdge, i: int, j: int) -> bool {
    &&& positive_bits(e.bandwidth_bits)
    &&& ((e.from == i && e.to == j) || (e.from == j && e.to == i))
}

/// Edge `e` runs between `i` and `j`, in either direction, whatever its bandwidth.
pub open spec fn touches(e: CommEdge, i: int, j: int) -> bool {
    (e.from == i && e.to == j) || (e.from == j && e.to == i)
}

/// `comps` lists the connected components of `adj`: each one starts with its
/// least agent and holds, without repetition, exactly the agents reachable
/// from it; the components appear in increasing order of their least agent
/// and together cover every agent.
pub open spec fn are_components(adj: Seq<Seq<bool>>, comps: Seq<Seq<usize>>) -> bool {
    &&& forall|c: int| 0 <= c < comps.len() ==> is_component(adj, #[trigger] comps[c])
    &&& forall|c: int, d: int| 0 <= c < d < comps.len() ==> #[trigger] comps[c][0] < #[trigger] comps[d][0]
    &&& forall|t: int| 0 <= t < adj.len() ==> #[trigger] placed(comps, t)
}

/// Agent `t` belongs to one of the listed components.
pub open spec fn placed(comps: Seq<Seq<usize>>, t: int) -> bool {
    exists|c: int| 0 <= c < comps.len() && #[trigger] comps[c].contains(t as usize)
}

/// `comp` is the component of its first agent, which is its least agent.
pub open spec fn is_component(adj: Seq<Seq<bool>>, comp: Seq<usize>) -> bool {
    &&& comp.len() > 0
    &&& comp.no_duplicates()
    &&& forall|t: int| 0 <= t < adj.len() ==> (comp.contains(t as usize) <==> #[trigger] reachable(adj, comp[0] as int, t))
    &&& forall|i: int| 0 <= i < comp.len() ==> #[trigger] comp[i] < adj.len()
    &&& forall|t: int| #[trigger] reachable(adj, comp[0] as int, t) ==> comp[0] <= t
}

/// Scanning the links of `node` from agent `j` on: each unmarked agent linked
/// to `node` is marked and pushed onto `stack`, in increasing order.
pub open spec fn expand(adj: Seq<Seq<bool>>, node: int, j: int, marked: Seq<bool>, stack: Seq<usize>) -> (
    Seq<bool>,
    Seq<usize>,
)
    decreases marked.len() - j,
{
    if 0 <= j < marked.len() {
        if link(adj, node, j) && !marked[j] {
            expand(adj, node, j + 1, marked.update(j, true), stack.push(j as usize))
        } else {
            expand(adj, node, j + 1, marked, stack)
        }
    } else {
        (marked, stack)
    }
}

/// Each agent that `expand` pushes is one it marks.
pub proof fn lemma_expand_counts(adj: Seq<Seq<bool>>, node: int, j: int, marked: Seq<bool>, stack: Seq<usize>)
    ensures
        expand(adj, node, j, marked, stack).0.len() == marked.len(),
        expand(adj, node, j, marked, stack).1.len() >= stack.len(),
        count_true(expand(adj, node, j, marked, stack).0) + stack.len() == count_true(marked) + expand(
            adj,
            node,
            j,
            marked,
            stack,
        ).1.len(),
    decreases marked.len() - j,
{
    if 0 <= j < marked.len() {
        if link(adj, node, j) && !marked[j] {
            lemma_count_true_update(marked, j);
            lemma_expand_counts(adj, node, j + 1, marked.update(j, true), stack.push(j as usize));
        } else {
            lemma_expand_counts(adj, node, j + 1, marked, stack);
        }
    }
}

/// The agents in the order a depth-first search pops them: it pops the top of
/// `stack`, then marks and pushes the unmarked agents linked to it in
/// increasing order, until the stack is empty.
pub open spec fn dfs_order(adj: Seq<Seq<bool>>, marked: Seq<bool>, stack: Seq<usize>) -> Seq<usize>
    decreases marked.len() - count_true(marked), stack.len(),
{
    if stack.len() == 0 {
        Seq::empty()
    } else {
        let next = expand(adj, stack.last() as int, 0, marked, stack.drop_last());
        proof {
            lemma_expand_counts(adj, stack.last() as int, 0, marked, stack.drop_last());
            lemma_count_true_bound(next.0);
        }
        seq![stack.last()] + dfs_order(adj, next.0, next.1)
    }
}

/// The agents listed in `comps`, as marks over the agents `0..n`.
pub open spec fn marks(n: nat, comps: Seq<Seq<usize>>) -> Seq<bool> {
    Seq::new(n, |t: int| exists|c: int| 0 <= c < comps.len() && #[trigger] comps[c].contains(t as usize))
}

/// The agent lists held in `comps`.
pub open spec fn component_lists(comps: Seq<Vec<usize>>) -> Seq<Seq<usize>> {
    comps.map_values(|c: Vec<usize>| c@)
}

/// Component `c` lists its agents in the order a depth-first search from its
/// first agent pops them, with the agents of the earlier components marked.
pub open spec fn in_search_order(adj: Seq<Seq<bool>>, comps: Seq<Seq<usize>>, c: int) -> bool {
    comps[c] == dfs_order(
        adj,
        marks(adj.len(), comps.take(c)).update(comps[c][0] as int, true),
        seq![comps[c][0]],
    )
}

/// The values of `s` strictly increase.
pub open spec fn strictly_sorted(s: Seq<usize>) -> bool {
    forall|a: int, b: int| 0 <= a < b < s.len() ==> #[trigger] s[a] < #[trigger] s[b]
}

/// The fleet graph: a directed graph of agents and communication channels.
#[derive(Debug, Clone)]
pub struct FleetGraph {
    pub agents: Vec<AgentNode>,
    pub edges: Vec<CommEdge>,
}

impl FleetGraph {
    /// Every channel connects two agents of the fleet.
    pub open spec fn wf(&self) -> bool {
        forall|k: int|
            0 <= k < self.edges@.len() ==> (#[trigger] self.edges@[k]).from < self.agents@.len()
                && self.edges@[k].to < self.agents@.len()
    }

    /// Agents `i` and `j` share a live channel.
    pub open spec fn linked(&self, i: int, j: int) -> bool {
        exists|k: int| 0 <= k < self.edges@.len() && #[trigger] joins(self.edges@[k], i, j)
    }

    /// The undirected live-channel matrix of the fleet.
    pub open spec fn adjacency(&self) -> Seq<Seq<bool>> {
        Seq::new(
            self.agents@.len(),
            |i: int| Seq::new(self.agents@.len(), |j: int| self.linked(i, j)),
        )
    }

    /// Create an empty fleet graph.
    pub fn new() -> (g: Self)
        ensures
            g.agents@.len() == 0,
            g.edges@.len() == 0,
            g.wf(),
    {
        FleetGraph { agents: Vec::new(), edges: Vec::new() }
    }

    /// Add an agent and return its index.
    pub fn add_agent(&mut self, agent: AgentNode) -> (idx: usize)
        requires
            old(self).agents@.len() < usize::MAX,
        ensures
            idx == old(self).agents@.len(),
            final(self).agents@ == old(self).agents@.push(agent),
            final(self).edges@ == old(self).edges@,
            old(self).wf() ==> final(self).wf(),
    {
        let idx = self.agents.len();
        self.agents.push(agent);
        idx
    }

    /// Add a directed communication edge between two agents of the fleet.
    pub fn add_edge(&mut self, edge: CommEdge)
        requires
            edge.from < old(self).agents@.len(),
            edge.to < old(self).agents@.len(),
        ensures
            final(self).agents@ == old(self).agents@,
            final(self).edges@ == old(self).edges@.push(edge),
            old(self).wf() ==> final(self).wf(),
    {
        self.edges.push(edge);
    }

    /// Number of agents (nodes).
    pub fn node_count(&self) -> (r: usize)
        ensures
            r == self.agents@.len(),
    {
        self.agents.len()
    }

    /// Number of edges.
    pub fn edge_count(&self) -> (r: usize)
        ensures
            r == self.edges@.len(),
    {
        self.edges.len()
    }

    /// Get the number of agents.
    pub fn len(&self) -> (r: usize)
        ensures
            r == self.agents@.len(),
    {
        self.agents.len()
    }

    /// Check if the graph is empty.
    pub fn is_empty(&self) -> (r: bool)
        ensures
            r == (self.agents@.len() == 0),
    {
        self.agents.len() == 0
    }

    /// The undirected live-channel matrix: entry `[i][j]` is set exactly when
    /// some edge with positive bandwidth runs between `i` and `j`.
    pub fn link_matrix(&self) -> (m: Vec<Vec<bool>>)
        requires
            self.wf(),
        ensures
            m@.len() == self.agents@.len(),
            grid(m@) == self.adjacency(),
            well_shaped(grid(m@)),
    {
        let n = self.agents.len();
        let mut m: Vec<Vec<bool>> = Vec::new();
        let mut i: usize = 0;
        while i < n
            invariant
                i <= n,
                m@.len() == i,
                forall|a: int| 0 <= a < i ==> (#[trigger] m@[a])@ == Seq::new(n as nat, |j: int| false),
            decreases n - i,
        {
            let mut row: Vec<bool> = Vec::new();
            let mut j: usize = 0;
            while j < n
                invariant
                    j <= n,
                    row@ == Seq::new(j as nat, |b: int| false),
                decreases n - j,
            {
                row.push(false);
                j = j + 1;
                assert(row@ =~= Seq::new(j as nat, |b: int| false));
            }
            m.push(row);
            i = i + 1;
        }
        let ghost edges = self.edges@;
        let mut k: usize = 0;
        while k < self.edges.len()
            invariant
                n == self.agents@.len(),
                edges == self.edges@,
                self.wf(),
                k <= edges.len(),
                m@.len() == n,
                forall|a: int| 0 <= a < n ==> (#[trigger] m@[a])@.len() == n,
                forall|a: int, b: int|
                    0 <= a < n && 0 <= b < n ==> (#[trigger] m@[a]@[b] <==> exists|q: int|
                        0 <= q < k && #[trigger] joins(edges[q], a, b)),
            decreases edges.len() - k,
        {
            let e = self.edges[k];
            assert(e == edges[k as int]);
            let ghost before = m@;
            if is_positive_bits(e.bandwidth_bits) {
                set_entry(&mut m, e.from, e.to);
                set_entry(&mut m, e.to, e.from);
            }
            assert forall|a: int, b: int| 0 <= a < n && 0 <= b < n implies (#[trigger] m@[a]@[b] <==> exists|q: int|
                0 <= q < k + 1 && #[trigger] joins(edges[q], a, b)) by {
                if m@[a]@[b] {
                    if joins(edges[k as int], a, b) {
                    } else {
                        assert(before[a]@[b]);
                        let q = choose|q: int| 0 <= q < k && #[trigger] joins(edges[q], a, b);
                        assert(0 <= q < k + 1 && joins(edges[q], a, b));
                    }
                } else {
                    assert forall|q: int| 0 <= q < k + 1 implies !#[trigger] joins(edges[q], a, b) by {
                        assert(!before[a]@[b]);
                    }
                }
            }
            k = k + 1;
        }
        assert(grid(m@) =~= self.adjacency()) by {
            assert forall|a: int| 0 <= a < n implies #[trigger] grid(m@)[a] =~= self.adjacency()[a] by {
                assert forall|b: int| 0 <= b < n implies grid(m@)[a][b] == self.adjacency()[a][b] by {
                    assert(m@[a]@[b] == grid(m@)[a][b]);
                }
            }
        }
        proof {
            assert forall|a: int, b: int| 0 <= a < n && 0 <= b < n implies #[trigger] grid(m@)[a][b]
                == grid(m@)[b][a] by {
                if self.linked(a, b) {
                    let q = choose|q: int| 0 <= q < edges.len() && #[trigger] joins(edges[q], a, b);
                    assert(joins(edges[q], b, a));
                }
                if self.linked(b, a) {
                    let q = choose|q: int| 0 <= q < edges.len() && #[trigger] joins(edges[q], b, a);
                    assert(joins(edges[q], a, b));
                }
            }
        }
        m
    }

    /// Check if the graph is connected (undirected, over live channels):
    /// every agent can reach every other one. The empty fleet counts as connected.
    pub fn is_connected(&self) -> (r: bool)
        requires
            self.wf(),
        ensures
            r == all_reachable(self.adjacency()),
    {
        let n = self.agents.len();
        if n == 0 {
            return true;
        }
        let adj = self.link_matrix();
        let ghost g = grid(adj@);
        let dist = distances_from(&adj, 0);
        let mut j: usize = 0;
        while j < n
            invariant
                n == adj@.len(),
                g == grid(adj@),
                g == self.adjacency(),
                well_shaped(g),
                dist@.len() == n,
                0 < n,
                j <= n,
                forall|t: int|
                    0 <= t < n ==> match #[trigger] dist@[t] {
                        Some(d) => is_distance(g, 0, t, d as nat),
                        None => !reachable(g, 0, t),
                    },
                forall|t: int| 0 <= t < j ==> (#[trigger] dist@[t]) is Some,
            decreases n - j,
        {
            if dist[j].is_none() {
                assert(!reachable(g, 0, j as int));
                return false;
            }
            j = j + 1;
        }
        proof {
            assert forall|s: int, t: int| 0 <= s < n && 0 <= t < n implies #[trigger] reachable(g, s, t) by {
                assert(dist@[s] is Some);
                assert(dist@[t] is Some);
                assert(within(g, 0, s, dist@[s].unwrap() as nat));
                assert(within(g, 0, t, dist@[t].unwrap() as nat));
                lemma_reachable_symmetric(g, 0, s);
                lemma_reachable_trans(g, s, 0, t);
            }
        }
        true
    }

    /// The connected components (undirected, over live channels), found by
    /// depth-first search from each agent not yet placed, in increasing order;
    /// each component lists its agents in the order the search pops them.
    pub fn connected_components(&self) -> (comps: Vec<Vec<usize>>)
        requires
            self.wf(),
        ensures
            are_components(self.adjacency(), comps@.map_values(|c: Vec<usize>| c@)),
            forall|c: int|
                0 <= c < comps@.len() ==> #[trigger] in_search_order(self.adjacency(), component_lists(comps@), c),
    {
        let n = self.agents.len();
        let mut comps: Vec<Vec<usize>> = Vec::new();
        if n == 0 {
            assert(comps@.map_values(|c: Vec<usize>| c@) =~= Seq::<Seq<usize>>::empty());
            return comps;
        }
        let adj = self.link_matrix();
        let ghost g = grid(adj@);
        let mut visited: Vec<bool> = Vec::new();
        let mut i: usize = 0;
        while i < n
            invariant
                i <= n,
                visited@.len() == i,
                forall|t: int| 0 <= t < i ==> !visited@[t],
            decreases n - i,
        {
            visited.push(false);
            i = i + 1;
        }
        let mut start: usize = 0;
        while start < n
            invariant
                n == adj@.len(),
                g == grid(adj@),
                g == self.adjacency(),
                well_shaped(g),
                start <= n,
                visited@.len() == n,
                forall|t: int| 0 <= t < start ==> visited@[t],
                closed_under_links(g, visited@),
                forall|t: int|
                    0 <= t < n ==> (visited@[t] <==> exists|c: int|
                        0 <= c < comps@.len() && #[trigger] comps@[c]@.contains(t as usize)),
                forall|c: int| 0 <= c < comps@.len() ==> is_component(g, #[trigger] comps@[c]@),
                forall|c: int, d: int|
                    0 <= c < d < comps@.len() ==> #[trigger] comps@[c]@[0] < #[trigger] comps@[d]@[0],
                forall|c: int| 0 <= c < comps@.len() ==> #[trigger] comps@[c]@[0] < start,
                forall|c: int|
                    0 <= c < comps@.len() ==> #[trigger] in_search_order(g, component_lists(comps@), c),
            decreases n - start,
        {
            if !visited[start] {
                let ghost vis_before = visited@;
                let ghost cs_before = component_lists(comps@);
                proof {
                    assert forall|t: int| 0 <= t < n implies vis_before[t] == #[trigger] marks(n as nat, cs_before)[t] by {
                        if vis_before[t] {
                            let c = choose|c: int| 0 <= c < comps@.len() && #[trigger] comps@[c]@.contains(t as usize);
                            assert(cs_before[c] == comps@[c]@);
                        }
                        if marks(n as nat, cs_before)[t] {
                            let c = choose|c: int| 0 <= c < cs_before.len() && #[trigger] cs_before[c].contains(t as usize);
                            assert(cs_before[c] == comps@[c]@);
                        }
                    }
                    assert(vis_before =~= marks(n as nat, cs_before));
                }
                let comp = self.component_from(&adj, &mut visited, start);
                let ghost old_comps = comps@;
                comps.push(comp);
                proof {
                    let cs = component_lists(comps@);
                    assert(cs.take(old_comps.len() as int) =~= cs_before);
                    assert forall|c: int| 0 <= c < comps@.len() implies #[trigger] in_search_order(g, cs, c) by {
                        if c < old_comps.len() {
                            assert(in_search_order(g, cs_before, c));
                            assert(cs.take(c) =~= cs_before.take(c));
                            assert(cs[c] == cs_before[c]);
                        } else {
                            assert(cs[c] == comp@);
                        }
                    }
                    assert(comps@[comps@.len() - 1] == comp);
                    assert forall|t: int|
                        0 <= t < n implies (visited@[t] <==> exists|c: int|
                            0 <= c < comps@.len() && #[trigger] comps@[c]@.contains(t as usize)) by {
                        if visited@[t] && !comp@.contains(t as usize) {
                            let c = choose|c: int| 0 <= c < old_comps.len() && #[trigger] old_comps[c]@.contains(t as usize);
                            assert(comps@[c] == old_comps[c]);
                        }
                        if exists|c: int| 0 <= c < comps@.len() && #[trigger] comps@[c]@.contains(t as usize) {
                            let c = choose|c: int| 0 <= c < comps@.len() && #[trigger] comps@[c]@.contains(t as usize);
                            if c < old_comps.len() {
                                assert(old_comps[c]@.contains(t as usize));
                            }
                        }
                    }
                    assert forall|c: int| 0 <= c < comps@.len() implies is_component(g, #[trigger] comps@[c]@) by {
                        if c < old_comps.len() {
                            assert(comps@[c] == old_comps[c]);
                        }
                    }
                    assert forall|c: int, d: int|
                        0 <= c < d < comps@.len() implies #[trigger] comps@[c]@[0] < #[trigger] comps@[d]@[0] by {
                        assert(comps@[c] == old_comps[c]);
                        if d < old_comps.len() {
                            assert(comps@[d] == old_comps[d]);
                        }
                    }
                    assert forall|c: int| 0 <= c < comps@.len() implies #[trigger] comps@[c]@[0] < start + 1 by {
                        if c < old_comps.len() {
                            assert(comps@[c] == old_comps[c]);
                        }
                    }
                }
            }
            start = start + 1;
        }
        proof {
            let cs = comps@.map_values(|c: Vec<usize>| c@);
            assert forall|c: int| 0 <= c < cs.len() implies #[trigger] in_search_order(self.adjacency(), component_lists(comps@), c) by {
                assert(in_search_order(g, component_lists(comps@), c));
            }
            assert forall|c: int| 0 <= c < cs.len() implies is_component(g, #[trigger] cs[c]) by {
                assert(cs[c] == comps@[c]@);
            }
            assert forall|c: int, d: int| 0 <= c < d < cs.len() implies #[trigger] cs[c][0] < #[trigger] cs[d][0] by {
                assert(cs[c] == comps@[c]@);
                assert(cs[d] == comps@[d]@);
            }
            assert forall|t: int| 0 <= t < g.len() implies #[trigger] placed(cs, t) by {
                assert(visited@[t]);
                let c = choose|c: int| 0 <= c < comps@.len() && #[trigger] comps@[c]@.contains(t as usize);
                assert(cs[c] == comps@[c]@);
            }
        }
        comps
    }

    /// Depth-first search from `s`, marking and collecting every agent it reaches.
    fn component_from(&self, adj: &Vec<Vec<bool>>, visited: &mut Vec<bool>, s: usize) -> (comp: Vec<usize>)
        requires
            well_shaped(grid(adj@)),
            old(visited)@.len() == adj@.len(),
            s < adj@.len(),
            !old(visited)@[s as int],
            closed_under_links(grid(adj@), old(visited)@),
            forall|t: int| 0 <= t < s ==> old(visited)@[t],
        ensures
            final(visited)@.len() == adj@.len(),
            closed_under_links(grid(adj@), final(visited)@),
            is_component(grid(adj@), comp@),
            comp@[0] == s,
            comp@ == dfs_order(grid(adj@), old(visited)@.update(s as int, true), seq![s]),
            forall|t: int|
                0 <= t < adj@.len() ==> (final(visited)@[t] <==> (old(visited)@[t] || comp@.contains(t as usize))),
            forall|t: int| 0 <= t < adj@.len() && #[trigger] comp@.contains(t as usize) ==> !old(visited)@[t],
    {
        let ghost g = grid(adj@);
        let ghost v0 = visited@;
        let n = adj.len();
        let mut comp: Vec<usize> = Vec::new();
        let mut stack: Vec<usize> = Vec::new();
        proof {
            lemma_count_true_update(visited@, s as int);
            lemma_count_true_bound(visited@.update(s as int, true));
        }
        visited.set(s, true);
        stack.push(s);
        let ghost order = dfs_order(g, v0.update(s as int, true), seq![s]);
        proof {
            assert(comp@ + dfs_order(g, visited@, stack@) =~= order);
            lemma_within_zero(g, s as int);
            assert(stack@[0] == s);
            assert forall|u: int, j: int|
                0 <= u < n && visited@[u] && !stack@.contains(u as usize) && #[trigger] link(g, u, j)
                    implies visited@[j] by {
                if u == s {
                    assert(stack@.contains(s));
                }
                assert(v0[u]);
            }
        }
        while stack.len() > 0
            invariant
                g == grid(adj@),
                well_shaped(g),
                n == adj@.len(),
                s < n,
                v0.len() == n,
                !v0[s as int],
                closed_under_links(g, v0),
                forall|t: int| 0 <= t < s ==> v0[t],
                visited@.len() == n,
                visited@[s as int],
                count_true(visited@) <= n,
                forall|t: int| 0 <= t < n && v0[t] ==> visited@[t],
                forall|t: int| 0 <= t < n && visited@[t] && !v0[t] ==> reachable(g, s as int, t),
                forall|t: int|
                    #![trigger visited@[t]]
                    0 <= t < n && visited@[t] && !v0[t] ==> comp@.contains(t as usize) || stack@.contains(t as usize),
                forall|i: int|
                    0 <= i < comp@.len() ==> #[trigger] comp@[i] < n && visited@[comp@[i] as int] && !v0[comp@[i] as int],
                forall|i: int|
                    0 <= i < stack@.len() ==> #[trigger] stack@[i] < n && visited@[stack@[i] as int] && !v0[stack@[i] as int],
                stack@.no_duplicates(),
                comp@.no_duplicates(),
                stack@.disjoint(comp@),
                comp@.len() == 0 ==> stack@ == seq![s],
                comp@.len() > 0 ==> comp@[0] == s,
                forall|u: int, j: int|
                    0 <= u < n && visited@[u] && !stack@.contains(u as usize) && #[trigger] link(g, u, j)
                        ==> visited@[j],
                order == dfs_order(g, v0.update(s as int, true), seq![s]),
                comp@ + dfs_order(g, visited@, stack@) == order,
            decreases 2 * (n - count_true(visited@)) + stack@.len(),
        {
            let ghost stack_before = stack@;
            let ghost comp_before = comp@;
            let ghost vis_p = visited@;
            let node = stack.pop().unwrap();
            comp.push(node);
            let ghost stack_p = stack@;
            let ghost m0 = 2 * (n - count_true(visited@)) + stack@.len();
            proof {
                assert(stack_before == stack@.push(node));
                assert(stack_before[stack_before.len() - 1] == node);
                assert(visited@[node as int] && !v0[node as int]);
                assert(!stack@.contains(node)) by {
                    if stack@.contains(node) {
                        let i = choose|i: int| 0 <= i < stack@.len() && stack@[i] == node;
                        assert(stack_before[i] == stack_before[stack_before.len() - 1]);
                    }
                }
                assert(!comp_before.contains(node)) by {
                    if comp_before.contains(node) {
                        let i = choose|i: int| 0 <= i < comp_before.len() && comp_before[i] == node;
                        assert(stack_before[stack_before.len() - 1] == comp_before[i]);
                    }
                }
                assert(comp@[comp@.len() - 1] == node);
                assert(comp@.contains(node));
                assert forall|i: int| 0 <= i < stack@.len() implies #[trigger] stack@[i] == stack_before[i] by {}
                assert forall|i: int| 0 <= i < comp_before.len() implies #[trigger] comp@[i] == comp_before[i] by {}
                assert forall|a: int, b: int|
                    0 <= a < comp@.len() && 0 <= b < comp@.len() && a != b implies comp@[a] != comp@[b] by {
                    if a < comp_before.len() && b < comp_before.len() {
                        assert(comp@[a] == comp_before[a] && comp@[b] == comp_before[b]);
                    } else if a < comp_before.len() {
                        assert(comp@[a] == comp_before[a]);
                        assert(comp_before.contains(comp@[a]));
                    } else if b < comp_before.len() {
                        assert(comp@[b] == comp_before[b]);
                        assert(comp_before.contains(comp@[b]));
                    }
                }
                assert forall|i: int, k: int| 0 <= i < stack@.len() && 0 <= k < comp@.len() implies stack@[i] != comp@[k] by {
                    assert(stack@[i] == stack_before[i]);
                    if k < comp_before.len() {
                        assert(comp@[k] == comp_before[k]);
                    } else {
                        assert(stack@.contains(stack@[i]));
                    }
                }
                assert forall|t: int|
                    #![trigger visited@[t]]
                    0 <= t < n && visited@[t] && !v0[t] implies comp@.contains(t as usize) || stack@.contains(t as usize) by {
                    if comp_before.contains(t as usize) {
                        let i = choose|i: int| 0 <= i < comp_before.len() && comp_before[i] == t as usize;
                        assert(comp@[i] == t as usize);
                    } else if t != node {
                        assert(stack_before.contains(t as usize));
                        let i = choose|i: int| 0 <= i < stack_before.len() && stack_before[i] == t as usize;
                        assert(stack@[i] == t as usize);
                    }
                }
                if comp_before.len() == 0 {
                    assert(stack_before == seq![s]);
                    assert(node == s);
                } else {
                    assert(comp@[0] == comp_before[0]);
                }
                assert forall|u: int, jj: int|
                    0 <= u < n && u != node && visited@[u] && !stack@.contains(u as usize) && #[trigger] link(g, u, jj)
                        implies visited@[jj] by {
                    if stack_before.contains(u as usize) {
                        let i = choose|i: int| 0 <= i < stack_before.len() && stack_before[i] == u as usize;
                        if i < stack@.len() {
                            assert(stack@[i] == u as usize);
                        }
                    }
                }
            }
            let mut j: usize = 0;
            while j < n
                invariant
                    g == grid(adj@),
                    well_shaped(g),
                    n == adj@.len(),
                    s < n,
                    node < n,
                    v0.len() == n,
                    !v0[s as int],
                    closed_under_links(g, v0),
                    forall|t: int| 0 <= t < s ==> v0[t],
                    visited@.len() == n,
                    visited@[s as int],
                    visited@[node as int],
                    !v0[node as int],
                    count_true(visited@) <= n,
                    2 * (n - count_true(visited@)) + stack@.len() <= m0,
                    j <= n,
                    forall|t: int| 0 <= t < n && v0[t] ==> visited@[t],
                    forall|t: int| 0 <= t < n && visited@[t] && !v0[t] ==> reachable(g, s as int, t),
                    forall|t: int|
                        #![trigger visited@[t]]
                        0 <= t < n && visited@[t] && !v0[t] ==> comp@.contains(t as usize) || stack@.contains(t as usize),
                    forall|i: int|
                        0 <= i < comp@.len() ==> #[trigger] comp@[i] < n && visited@[comp@[i] as int] && !v0[comp@[i] as int],
                    forall|i: int|
                        0 <= i < stack@.len() ==> #[trigger] stack@[i] < n && visited@[stack@[i] as int] && !v0[stack@[i] as int],
                    stack@.no_duplicates(),
                    comp@.no_duplicates(),
                    stack@.disjoint(comp@),
                    comp@.len() > 0,
                    comp@[0] == s,
                    comp@.contains(node),
                    !stack@.contains(node),
                    forall|u: int, jj: int|
                        0 <= u < n && u != node && visited@[u] && !stack@.contains(u as usize) && #[trigger] link(g, u, jj)
                            ==> visited@[jj],
                    forall|jj: int| 0 <= jj < j && #[trigger] link(g, node as int, jj) ==> visited@[jj],
                    expand(g, node as int, j as int, visited@, stack@) == expand(g, node as int, 0, vis_p, stack_p),
                decreases n - j,
            {
                let ghost vj = visited@;
                let ghost sj = stack@;
                if has_link(adj, node, j) && !visited[j] {
                    let ghost vb = visited@;
                    let ghost sb = stack@;
                    proof {
                        lemma_count_true_update(visited@, j as int);
                        lemma_count_true_bound(visited@.update(j as int, true));
                        assert(reachable(g, s as int, node as int));
                        let k = choose|k: nat| #[trigger] within(g, s as int, node as int, k);
                        lemma_within_step(g, s as int, node as int, j as int, k);
                        assert(!comp@.contains(j)) by {
                            if comp@.contains(j) {
                                let i = choose|i: int| 0 <= i < comp@.len() && comp@[i] == j;
                                assert(vb[comp@[i] as int]);
                            }
                        }
                        assert(!stack@.contains(j)) by {
                            if stack@.contains(j) {
                                let i = choose|i: int| 0 <= i < stack@.len() && stack@[i] == j;
                                assert(vb[stack@[i] as int]);
                            }
                        }
                        assert(!v0[j as int]);
                    }
                    visited.set(j, true);
                    stack.push(j);
                    proof {
                        assert(stack@[stack@.len() - 1] == j);
                        assert forall|i: int| 0 <= i < sb.len() implies #[trigger] stack@[i] == sb[i] by {}
                        assert(stack@.contains(j));
                        assert forall|t: int|
                            #![trigger visited@[t]]
                            0 <= t < n && visited@[t] && !v0[t] implies comp@.contains(t as usize) || stack@.contains(t as usize) by {
                            if t != j && !comp@.contains(t as usize) {
                                assert(vb[t]);
                                assert(sb.contains(t as usize));
                                let i = choose|i: int| 0 <= i < sb.len() && sb[i] == t as usize;
                                assert(stack@[i] == t as usize);
                            }
                        }
                        assert forall|i: int|
                            0 <= i < stack@.len() implies #[trigger] stack@[i] < n && visited@[stack@[i] as int] && !v0[stack@[i] as int] by {
                            if i < sb.len() {
                                assert(stack@[i] == sb[i]);
                            }
                        }
                        assert forall|a: int, b: int|
                            0 <= a < stack@.len() && 0 <= b < stack@.len() && a != b implies stack@[a] != stack@[b] by {
                            if a < sb.len() && b < sb.len() {
                                assert(stack@[a] == sb[a] && stack@[b] == sb[b]);
                            } else if a < sb.len() {
                                assert(sb.contains(stack@[a]));
                            } else if b < sb.len() {
                                assert(sb.contains(stack@[b]));
                            }
                        }
                        assert forall|i: int, k: int| 0 <= i < stack@.len() && 0 <= k < comp@.len() implies stack@[i] != comp@[k] by {
                            if i < sb.len() {
                                assert(stack@[i] == sb[i]);
                            } else {
                                assert(comp@.contains(comp@[k]));
                            }
                        }
                        assert(!stack@.contains(node)) by {
                            if stack@.contains(node) {
                                let i = choose|i: int| 0 <= i < stack@.len() && stack@[i] == node;
                                if i < sb.len() {
                                    assert(sb[i] == node);
                                }
                            }
                        }
                        assert forall|u: int, jj: int|
                            0 <= u < n && u != node && visited@[u] && !stack@.contains(u as usize) && #[trigger] link(g, u, jj)
                                implies visited@[jj] by {
                            if u != j {
                                assert(vb[u]);
                                if sb.contains(u as usize) {
                                    let i = choose|i: int| 0 <= i < sb.len() && sb[i] == u as usize;
                                    assert(stack@[i] == u as usize);
                                }
                            }
                        }
                    }
                }
                assert(expand(g, node as int, j as int, vj, sj) == expand(g, node as int, j + 1, visited@, stack@));
                j = j + 1;
            }
            proof {
                assert forall|u: int, jj: int|
                    0 <= u < n && visited@[u] && !stack@.contains(u as usize) && #[trigger] link(g, u, jj)
                        implies visited@[jj] by {
                    if u == node {
                        assert(0 <= jj < n);
                    }
                }
                assert(expand(g, node as int, n as int, visited@, stack@) == (visited@, stack@));
                assert(stack_before.drop_last() =~= stack_p);
                assert(dfs_order(g, vis_p, stack_before) == seq![node] + dfs_order(g, visited@, stack@));
                assert(comp@ + dfs_order(g, visited@, stack@) =~= comp_before + (seq![node] + dfs_order(g, visited@, stack@)));
            }
        }
        proof {
            assert(comp@ + dfs_order(g, visited@, stack@) =~= comp@);
            assert(closed_under_links(g, visited@)) by {
                assert forall|u: int, j: int| 0 <= u < g.len() && visited@[u] && #[trigger] link(g, u, j) implies visited@[j] by {
                    assert(!stack@.contains(u as usize));
                }
            }
            assert forall|t: int| 0 <= t < n implies (comp@.contains(t as usize) <==> #[trigger] reachable(g, s as int, t)) by {
                if comp@.contains(t as usize) {
                    let i = choose|i: int| 0 <= i < comp@.len() && comp@[i] == t as usize;
                    assert(visited@[comp@[i] as int] && !v0[comp@[i] as int]);
                }
                if reachable(g, s as int, t) {
                    let k = choose|k: nat| #[trigger] within(g, s as int, t, k);
                    lemma_closed_reach(g, visited@, s as int, t, k);
                    if v0[t] {
                        lemma_within_symmetric(g, s as int, t, k);
                        lemma_closed_reach(g, v0, t, s as int, k);
                    }
                    assert(visited@[t]);
                }
            }
            assert forall|t: int| #[trigger] reachable(g, s as int, t) implies s <= t by {
                let k = choose|k: nat| #[trigger] within(g, s as int, t, k);
                lemma_within_bounds(g, s as int, t, k);
                if t < s {
                    lemma_within_symmetric(g, s as int, t, k);
                    lemma_closed_reach(g, v0, t, s as int, k);
                }
            }
            assert forall|t: int|
                0 <= t < n implies (visited@[t] <==> (v0[t] || comp@.contains(t as usize))) by {
                if comp@.contains(t as usize) {
                    let i = choose|i: int| 0 <= i < comp@.len() && comp@[i] == t as usize;
                    assert(visited@[comp@[i] as int]);
                }
            }
            assert forall|t: int| 0 <= t < n && #[trigger] comp@.contains(t as usize) implies !v0[t] by {
                let i = choose|i: int| 0 <= i < comp@.len() && comp@[i] == t as usize;
                assert(!v0[comp@[i] as int]);
            }
            assert forall|i: int| 0 <= i < comp@.len() implies #[trigger] comp@[i] < n by {}
        }
        comp
    }

    /// Neighbors of node `i` (undirected, any channel whatever its bandwidth),
    /// in increasing order without repetition.
    pub fn neighbors(&self, i: usize) -> (r: Vec<usize>)
        ensures
            strictly_sorted(r@),
            forall|j: usize|
                r@.contains(j) <==> exists|k: int|
                    0 <= k < self.edges@.len() && #[trigger] touches(self.edges@[k], i as int, j as int),
    {
        let mut r: Vec<usize> = Vec::new();
        let mut k: usize = 0;
        while k < self.edges.len()
            invariant
                k <= self.edges@.len(),
                strictly_sorted(r@),
                forall|j: usize|
                    r@.contains(j) <==> exists|q: int|
                        0 <= q < k && #[trigger] touches(self.edges@[q], i as int, j as int),
            decreases self.edges@.len() - k,
        {
            let e = self.edges[k];
            let ghost before = r@;
            if e.from == i {
                insert_sorted(&mut r, e.to);
            }
            if e.to == i {
                insert_sorted(&mut r, e.from);
            }
            assert forall|j: usize| r@.contains(j) <==> exists|q: int|
                0 <= q < k + 1 && #[trigger] touches(self.edges@[q], i as int, j as int) by {
                if r@.contains(j) && !touches(self.edges@[k as int], i as int, j as int) {
                    assert(before.contains(j));
                    let q = choose|q: int| 0 <= q < k && #[trigger] touches(self.edges@[q], i as int, j as int);
                    assert(0 <= q < k + 1);
                }
                if exists|q: int| 0 <= q < k + 1 && #[trigger] touches(self.edges@[q], i as int, j as int) {
                    let q = choose|q: int| 0 <= q < k + 1 && #[trigger] touches(self.edges@[q], i as int, j as int);
                    if q < k {
                        assert(before.contains(j));
                    }
                }
            }
            k = k + 1;
        }
        r
    }
}

/// Sets entry `[i][j]` of a square matrix.
fn set_entry(m: &mut Vec<Vec<bool>>, i: usize, j: usize)
    requires
        i < old(m)@.len(),
        j < old(m)@[i as int]@.len(),
    ensures
        final(m)@.len() == old(m)@.len(),
        forall|a: int| 0 <= a < old(m)@.len() ==> (#[trigger] final(m)@[a])@.len() == old(m)@[a]@.len(),
        forall|a: int, b: int|
            0 <= a < old(m)@.len() && 0 <= b < old(m)@[a]@.len() ==> #[trigger] final(m)@[a]@[b] == ((a
                == i && b == j) || old(m)@[a]@[b]),
{
    let mut row: Vec<bool> = Vec::new();
    std::mem::swap(&mut row, &mut m[i]);
    row.set(j, true);
    std::mem::swap(&mut row, &mut m[i]);
}

/// Inserts `x` into a strictly increasing vector, keeping it strictly increasing.
fn insert_sorted(v: &mut Vec<usize>, x: usize)
    requires
        strictly_sorted(old(v)@),
    ensures
        strictly_sorted(final(v)@),
        forall|y: usize| final(v)@.contains(y) <==> (old(v)@.contains(y) || y == x),
{
    let mut p: usize = 0;
    while p < v.len() && v[p] < x
        invariant
            p <= v@.len(),
            v@ == old(v)@,
            strictly_sorted(v@),
            forall|a: int| 0 <= a < p ==> #[trigger] v@[a] < x,
        decreases v@.len() - p,
    {
        p = p + 1;
    }
    if p < v.len() && v[p] == x {
        assert(v@[p as int] == x);
        return;
    }
    let ghost before = v@;
    assert(before == old(v)@);
    v.insert(p, x);
    assert forall|y: usize| #[trigger] v@.contains(y) <==> (old(v)@.contains(y) || y == x) by {
        if v@.contains(y) {
            let a = choose|a: int| 0 <= a < v@.len() && v@[a] == y;
            if a < p {
                assert(before[a] == y);
            } else if a > p {
                assert(before[a - 1] == y);
            }
        }
        if before.contains(y) {
            let a = choose|a: int| 0 <= a < before.len() && before[a] == y;
            if a < p {
                assert(v@[a] == y);
            } else {
                assert(v@[a + 1] == y);
            }
        }
        if y == x {
            assert(v@[p as int] == x);
        }
    }
    assert forall|a: int, b: int| 0 <= a < b < v@.len() implies #[trigger] v@[a] < #[trigger] v@[b] by {
        if b < p {
            assert(v@[a] == before[a] && v@[b] == before[b]);
        } else if b == p {
            assert(v@[a] == before[a]);
        } else if a == p {
            assert(v@[b] == before[b - 1]);
            assert(before[p as int] >= x);
            if b - 1 > p {
                assert(before[p as int] < before[b - 1]);
            }
        } else if a < p {
            assert(v@[a] == before[a] && v@[b] == before[b - 1]);
        } else {
            assert(v@[a] == before[a - 1] && v@[b] == before[b - 1]);
        }
    }
}

impl Default for FleetGraph {
    fn default() -> (g: Self)
        ensures
            g.agents@.len() == 0,
            g.edges@.len() == 0,
    {
        Self::new()
    }
}

/// A fleet with at least one agent is connected exactly when it has a single
/// connected component.
pub proof fn lemma_connected_iff_one_component(adj: Seq<Seq<bool>>, comps: Seq<Seq<usize>>)
    requires
        well_shaped(adj),
        adj.len() > 0,
        are_components(adj, comps),
    ensures
        all_reachable(adj) <==> comps.len() == 1,
{
    assert(placed(comps, 0));
    let c0 = choose|c: int| 0 <= c < comps.len() && #[trigger] comps[c].contains(0usize);
    if all_reachable(adj) && comps.len() != 1 {
        assert(is_component(adj, comps[0]) && is_component(adj, comps[1]));
        let r0 = comps[0][0] as int;
        let r1 = comps[1][0] as int;
        assert(comps[0][0] < comps[1][0]);
        assert(0 <= r0 < adj.len() && 0 <= r1 < adj.len());
        assert(reachable(adj, r1, r0));
        assert(r1 <= r0);
    }
    if comps.len() == 1 {
        assert(is_component(adj, comps[0]));
        let r = comps[0][0] as int;
        assert(0 <= r < adj.len());
        assert forall|s: int, t: int| 0 <= s < adj.len() && 0 <= t < adj.len() implies #[trigger] reachable(adj, s, t) by {
            assert(placed(comps, s));
            assert(placed(comps, t));
            let cs = choose|c: int| 0 <= c < comps.len() && #[trigger] comps[c].contains(s as usize);
            let ct = choose|c: int| 0 <= c < comps.len() && #[trigger] comps[c].contains(t as usize);
            assert(reachable(adj, r, s));
            assert(reachable(adj, r, t));
            lemma_reachable_symmetric(adj, r, s);
            lemma_reachable_trans(adj, s, r, t);
        }
    }
}

/// Every agent lies in exactly one of the listed components.
pub proof fn lemma_components_disjoint(adj: Seq<Seq<bool>>, comps: Seq<Seq<usize>>, t: int, c: int, d: int)
    requires
        well_shaped(adj),
        are_components(adj, comps),
        0 <= t < adj.len(),
        0 <= c < comps.len(),
        0 <= d < comps.len(),
        comps[c].contains(t as usize),
        comps[d].contains(t as usize),
    ensures
        c == d,
{
    assert(is_component(adj, comps[c]) && is_component(adj, comps[d]));
    let rc = comps[c][0] as int;
    let rd = comps[d][0] as int;
    assert(reachable(adj, rc, t));
    assert(reachable(adj, rd, t));
    lemma_reachable_symmetric(adj, rd, t);
    lemma_reachable_trans(adj, rc, t, rd);
    lemma_reachable_symmetric(adj, rc, rd);
    assert(rc <= rd && rd <= rc);
    if c < d {
        assert(comps[c][0] < comps[d][0]);
    } else if d < c {
        assert(comps[d][0] < comps[c][0]);
    }
}

} // verus!
