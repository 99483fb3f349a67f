//! Fleet graph dynamics: how the fleet evolves over time.
//!
//! The structural half of tracking a fleet: each change (an agent joins or
//! leaves, a channel is added or removed) edits the graph and yields the event
//! that records it. Re-indexing after an agent leaves keeps every remaining
//! channel attached to the same agents.

use vstd::prelude::*;
use crate::fleet_graph::{joins, AgentNode, CommEdge, FleetGraph};

verus! {

/// A change event in the fleet graph.
#[derive(Debug, Clone)]
pub enum FleetEvent {
    AgentJoined { agent_id: String, index: usize },
    AgentLeft { agent_id: String, index: usize },
    EdgeAdded { from: usize, to: usize },
    EdgeRemoved { from: usize, to: usize },
}

/// Channel `e` after agent `index` left: endpoints above it shift down by one.
pub open spec fn reindexed(e: CommEdge, index: int) -> CommEdge {
    CommEdge {
        from: if e.from > index { (e.from - 1) as usize } else { e.from },
        to: if e.to > index { (e.to - 1) as usize } else { e.to },
        bandwidth_bits: e.bandwidth_bits,
        latency_bits: e.latency_bits,
    }
}

/// The channels that survive agent `index` leaving, in their existing order
/// and re-indexed.
pub open spec fn edges_after_leaving(edges: Seq<CommEdge>, index: int) -> Seq<CommEdge>
    decreases edges.len(),
{
    if edges.len() == 0 {
        Seq::empty()
    } else {
        let e = edges.last();
        edges_after_leaving(edges.drop_last(), index) + if e.from == index || e.to == index {
            Seq::empty()
        } else {
            seq![reindexed(e, index)]
        }
    }
}

/// The channels other than `from -> to`, in their existing order.
pub open spec fn edges_without(edges: Seq<CommEdge>, from: int, to: int) -> Seq<CommEdge>
    decreases edges.len(),
{
    if edges.len() == 0 {
        Seq::empty()
    } else {
        let e = edges.last();
        edges_without(edges.drop_last(), from, to) + if e.from == from && e.to == to {
            Seq::empty()
        } else {
            seq![e]
        }
    }
}

/// When agent `index` leaves, exactly the channels not touching it survive,
/// in their order and with their multiplicity, each with its endpoints above
/// `index` moved down by one and its bandwidth and latency kept.
pub proof fn lemma_edges_after_leaving_law(edges: Seq<CommEdge>, index: int)
    ensures
        edges_after_leaving(edges, index) == edges.filter(|e: CommEdge| e.from != index && e.to != index).map_values(
            |e: CommEdge| reindexed(e, index),
        ),
    decreases edges.len(),
{
    reveal(Seq::filter);
    let keep = |e: CommEdge| e.from != index && e.to != index;
    let shift = |e: CommEdge| reindexed(e, index);
    if edges.len() > 0 {
        let init = edges.drop_last();
        let e = edges.last();
        lemma_edges_after_leaving_law(init, index);
        let f0 = init.filter(keep);
        assert(edges.filter(keep) == if keep(e) { f0.push(e) } else { f0 });
        if keep(e) {
            assert(f0.push(e).map_values(shift) =~= f0.map_values(shift).push(shift(e)));
        }
    } else {
        assert(edges.filter(keep).map_values(shift) =~= Seq::<CommEdge>::empty());
    }
}

/// Removing the channels `from -> to` keeps exactly the other channels, in
/// their order and with their multiplicity, and leaves no channel `from -> to`.
pub proof fn lemma_edges_without_law(edges: Seq<CommEdge>, from: int, to: int)
    ensures
        edges_without(edges, from, to) == edges.filter(|e: CommEdge| !(e.from == from && e.to == to)),
        forall|q: int|
            0 <= q < edges_without(edges, from, to).len() ==> !((#[trigger] edges_without(edges, from, to)[q]).from
                == from && edges_without(edges, from, to)[q].to == to),
        forall|q: int|
            0 <= q < edges.len() && !((#[trigger] edges[q]).from == from && edges[q].to == to)
                ==> edges_without(edges, from, to).contains(edges[q]),
    decreases edges.len(),
{
    reveal(Seq::filter);
    let pred = |e: CommEdge| !(e.from == from && e.to == to);
    let r = edges_without(edges, from, to);
    if edges.len() > 0 {
        let init = edges.drop_last();
        let e = edges.last();
        lemma_edges_without_law(init, from, to);
        let r0 = edges_without(init, from, to);
        assert(r == edges.filter(pred));
        assert forall|q: int| 0 <= q < r.len() implies !((#[trigger] r[q]).from == from && r[q].to == to) by {
            if q < r0.len() {
                assert(r[q] == r0[q]);
            }
        }
        assert forall|q: int| 0 <= q < edges.len() && !((#[trigger] edges[q]).from == from && edges[q].to == to)
            implies r.contains(edges[q]) by {
            if q < init.len() {
                assert(init[q] == edges[q]);
                let x = choose|x: int| 0 <= x < r0.len() && r0[x] == init[q];
                assert(r[x] == r0[x]);
            } else {
                assert(r[r0.len() as int] == e);
            }
        }
    }
}

/// Add an agent to the fleet; returns its index and the event that records it.
pub fn add_agent(graph: &mut FleetGraph, id: String, capabilities: Vec<String>, load_bits: u64) -> (r: (
    usize,
    FleetEvent,
))
    requires
        old(graph).agents@.len() < usize::MAX,
    ensures
        r.0 == old(graph).agents@.len(),
        final(graph).agents@.len() == old(graph).agents@.len() + 1,
        final(graph).agents@.take(r.0 as int) == old(graph).agents@,
        final(graph).agents@[r.0 as int].id@ == id@,
        final(graph).agents@[r.0 as int].capabilities == capabilities,
        final(graph).agents@[r.0 as int].load_bits == load_bits,
        final(graph).edges@ == old(graph).edges@,
        old(graph).wf() ==> final(graph).wf(),
        r.1 matches FleetEvent::AgentJoined { agent_id, index } && agent_id@ == id@ && index == r.0,
{
    let agent_id = id.clone();
    let idx = graph.add_agent(AgentNode::new(id, capabilities, load_bits));
    assert(graph.agents@.take(idx as int) =~= old(graph).agents@);
    (idx, FleetEvent::AgentJoined { agent_id, index: idx })
}

/// Remove an agent and every channel touching it; the remaining channels are
/// re-indexed. Returns the event, or `None` (and changes nothing) when there
/// is no agent `index`.
pub fn remove_agent(graph: &mut FleetGraph, index: usize) -> (ev: Option<FleetEvent>)
    requires
        old(graph).wf(),
    ensures
        final(graph).wf(),
        index >= old(graph).agents@.len() ==> ev is None && *final(graph) == *old(graph),
        index < old(graph).agents@.len() ==> {
            &&& final(graph).agents@ == old(graph).agents@.remove(index as int)
            &&& final(graph).edges@ == edges_after_leaving(old(graph).edges@, index as int)
            &&& final(graph).edges@ == old(graph).edges@.filter(
                |e: CommEdge| e.from != index && e.to != index,
            ).map_values(|e: CommEdge| reindexed(e, index as int))
            &&& ev matches Some(FleetEvent::AgentLeft { agent_id, index: i }) && agent_id@ == old(
                graph,
            ).agents@[index as int].id@ && i == index
        },
{
    if index >= graph.agents.len() {
        return None;
    }
    let agent_id = graph.agents[index].id.clone();
    let ghost old_edges = graph.edges@;
    let n = graph.agents.len();
    let mut kept: Vec<CommEdge> = Vec::new();
    let mut k: usize = 0;
    while k < graph.edges.len()
        invariant
            k <= old_edges.len(),
            graph.edges@ == old_edges,
            graph.agents@.len() == n,
            index < n,
            forall|q: int| 0 <= q < old_edges.len() ==> (#[trigger] old_edges[q]).from < n && old_edges[q].to < n,
            kept@ == edges_after_leaving(old_edges.take(k as int), index as int),
            forall|q: int| 0 <= q < kept@.len() ==> (#[trigger] kept@[q]).from < n - 1 && kept@[q].to < n - 1,
        decreases old_edges.len() - k,
    {
        let e = graph.edges[k];
        proof {
            assert(old_edges.take(k + 1).drop_last() =~= old_edges.take(k as int));
            assert(old_edges.take(k + 1).last() == e);
        }
        if e.from != index && e.to != index {
            let from = if e.from > index { e.from - 1 } else { e.from };
            let to = if e.to > index { e.to - 1 } else { e.to };
            kept.push(CommEdge::new(from, to, e.bandwidth_bits, e.latency_bits));
        }
        proof {
            assert(kept@ =~= edges_after_leaving(old_edges.take(k + 1), index as int));
        }
        k = k + 1;
    }
    assert(old_edges.take(old_edges.len() as int) =~= old_edges);
    graph.agents.remove(index);
    graph.edges = kept;
    proof {
        lemma_edges_after_leaving_law(old_edges, index as int);
    }
    Some(FleetEvent::AgentLeft { agent_id, index })
}

/// Add a communication channel between two agents of the fleet; returns the
/// event that records it.
pub fn add_edge(graph: &mut FleetGraph, from: usize, to: usize, bandwidth_bits: u64, latency_bits: u64) -> (ev:
    FleetEvent)
    requires
        from < old(graph).agents@.len(),
        to < old(graph).agents@.len(),
    ensures
        final(graph).agents@ == old(graph).agents@,
        final(graph).edges@ == old(graph).edges@.push(CommEdge { from, to, bandwidth_bits, latency_bits }),
        old(graph).wf() ==> final(graph).wf(),
        ev == (FleetEvent::EdgeAdded { from, to }),
{
    graph.add_edge(CommEdge::new(from, to, bandwidth_bits, latency_bits));
    FleetEvent::EdgeAdded { from, to }
}

/// Remove every channel `from -> to`. Returns the event when at least one
/// channel was removed, and `None` (nothing removed) otherwise.
pub fn remove_edge(graph: &mut FleetGraph, from: usize, to: usize) -> (ev: Option<FleetEvent>)
    ensures
        final(graph).agents@ == old(graph).agents@,
        final(graph).edges@ == edges_without(old(graph).edges@, from as int, to as int),
        final(graph).edges@ == old(graph).edges@.filter(|e: CommEdge| !(e.from == from && e.to == to)),
        forall|q: int|
            0 <= q < final(graph).edges@.len() ==> !((#[trigger] final(graph).edges@[q]).from == from
                && final(graph).edges@[q].to == to),
        old(graph).wf() ==> final(graph).wf(),
        ev is Some <==> exists|q: int|
            0 <= q < old(graph).edges@.len() && (#[trigger] old(graph).edges@[q]).from == from
                && old(graph).edges@[q].to == to,
        ev is Some ==> ev == Some(FleetEvent::EdgeRemoved { from, to }),
{
    let ghost old_edges = graph.edges@;
    let mut kept: Vec<CommEdge> = Vec::new();
    let mut found = false;
    let mut k: usize = 0;
    while k < graph.edges.len()
        invariant
            k <= old_edges.len(),
            graph.edges@ == old_edges,
            graph.agents@ == old(graph).agents@,
            old_edges == old(graph).edges@,
            kept@ == edges_without(old_edges.take(k as int), from as int, to as int),
            forall|q: int|
                #![trigger kept@[q]]
                0 <= q < kept@.len() ==> exists|p: int| 0 <= p < k && #[trigger] old_edges[p] == kept@[q],
            found <==> exists|q: int| 0 <= q < k && (#[trigger] old_edges[q]).from == from && old_edges[q].to == to,
        decreases old_edges.len() - k,
    {
        let e = graph.edges[k];
        proof {
            assert(old_edges.take(k + 1).drop_last() =~= old_edges.take(k as int));
            assert(old_edges.take(k + 1).last() == e);
        }
        let ghost before = kept@;
        if e.from == from && e.to == to {
            found = true;
        } else {
            kept.push(e);
            proof {
                assert forall|q: int| #![trigger kept@[q]] 0 <= q < kept@.len() implies exists|p: int|
                    0 <= p < k + 1 && #[trigger] old_edges[p] == kept@[q] by {
                    if q < before.len() {
                        let p = choose|p: int| 0 <= p < k && #[trigger] old_edges[p] == before[q];
                        assert(old_edges[p] == kept@[q]);
                    } else {
                        assert(old_edges[k as int] == kept@[q]);
                    }
                }
            }
        }
        proof {
            assert(kept@ =~= edges_without(old_edges.take(k + 1), from as int, to as int));
        }
        k = k + 1;
    }
    assert(old_edges.take(old_edges.len() as int) =~= old_edges);
    graph.edges = kept;
    proof {
        lemma_edges_without_law(old_edges, from as int, to as int);
        if old(graph).wf() {
            assert forall|q: int| 0 <= q < graph.edges@.len() implies (#[trigger] graph.edges@[q]).from
                < graph.agents@.len() && graph.edges@[q].to < graph.agents@.len() by {
                let p = choose|p: int| 0 <= p < old_edges.len() && #[trigger] old_edges[p] == graph.edges@[q];
                assert(old_edges[p].from < graph.agents@.len());
            }
        }
    }
    if found {
        Some(FleetEvent::EdgeRemoved { from, to })
    } else {
        None
    }
}

/// Channels that leave no agent above `index` and never touch it survive
/// agent `index` leaving unchanged.
proof fn lemma_leaving_keeps_lower(edges: Seq<CommEdge>, index: int)
    requires
        forall|q: int| 0 <= q < edges.len() ==> (#[trigger] edges[q]).from < index && edges[q].to < index,
    ensures
        edges_after_leaving(edges, index) == edges,
    decreases edges.len(),
{
    if edges.len() > 0 {
        lemma_leaving_keeps_lower(edges.drop_last(), index);
        let e = edges.last();
        assert(reindexed(e, index) == e);
        assert(edges.drop_last().push(e) =~= edges);
    }
}

/// The agent that joined last leaving again restores the fleet: it held the
/// highest index, so no channel touched it and no other agent moves.
pub proof fn lemma_leave_undoes_join(agents: Seq<AgentNode>, edges: Seq<CommEdge>, agent: AgentNode)
    requires
        forall|q: int|
            0 <= q < edges.len() ==> (#[trigger] edges[q]).from < agents.len() && edges[q].to < agents.len(),
    ensures
        agents.push(agent).remove(agents.len() as int) == agents,
        edges_after_leaving(edges, agents.len() as int) == edges,
{
    assert(agents.push(agent).remove(agents.len() as int) =~= agents);
    lemma_leaving_keeps_lower(edges, agents.len() as int);
}

/// Channels none of which runs `from -> to` are all kept by `edges_without`.
proof fn lemma_without_absent(edges: Seq<CommEdge>, from: int, to: int)
    requires
        forall|q: int| 0 <= q < edges.len() ==> !((#[trigger] edges[q]).from == from && edges[q].to == to),
    ensures
        edges_without(edges, from, to) == edges,
    decreases edges.len(),
{
    if edges.len() > 0 {
        lemma_without_absent(edges.drop_last(), from, to);
        assert(edges.drop_last().push(edges.last()) =~= edges);
    }
}

/// Removing the channels `from -> to` right after adding one undoes the
/// addition, when the fleet had no channel `from -> to` before.
pub proof fn lemma_remove_undoes_add(edges: Seq<CommEdge>, e: CommEdge)
    requires
        forall|q: int| 0 <= q < edges.len() ==> !((#[trigger] edges[q]).from == e.from && edges[q].to == e.to),
    ensures
        edges_without(edges.push(e), e.from as int, e.to as int) == edges,
{
    assert(edges.push(e).drop_last() =~= edges);
    lemma_without_absent(edges, e.from as int, e.to as int);
    assert(edges_without(edges.push(e), e.from as int, e.to as int) =~= edges_without(edges, e.from as int, e.to as int));
}

/// Agent `i` of the fleet after agent `index` left was agent
/// `lifted(i, index)` before.
pub open spec fn lifted(i: int, index: int) -> int {
    if i < index {
        i
    } else {
        i + 1
    }
}

/// A re-indexed channel runs between `i` and `j` exactly when the surviving
/// channel it came from ran between the agents they were before.
proof fn lemma_leaving_joins(edges: Seq<CommEdge>, index: int, i: int, j: int)
    requires
        0 <= index,
    ensures
        (exists|k: int|
            0 <= k < edges_after_leaving(edges, index).len() && #[trigger] joins(
                edges_after_leaving(edges, index)[k],
                i,
                j,
            )) <==> (exists|k: int|
            0 <= k < edges.len() && #[trigger] joins(edges[k], lifted(i, index), lifted(j, index))),
    decreases edges.len(),
{
    if edges.len() > 0 {
        let init = edges.drop_last();
        let e = edges.last();
        let li = lifted(i, index);
        let lj = lifted(j, index);
        lemma_leaving_joins(init, index, i, j);
        let after = edges_after_leaving(edges, index);
        let after0 = edges_after_leaving(init, index);
        if exists|k: int| 0 <= k < after.len() && #[trigger] joins(after[k], i, j) {
            let k = choose|k: int| 0 <= k < after.len() && #[trigger] joins(after[k], i, j);
            if k < after0.len() {
                assert(after[k] == after0[k]);
                let q = choose|q: int| 0 <= q < init.len() && #[trigger] joins(init[q], li, lj);
                assert(edges[q] == init[q]);
            } else {
                assert(after[k] == reindexed(e, index));
                assert(joins(edges[edges.len() - 1], li, lj));
            }
        }
        if exists|k: int| 0 <= k < edges.len() && #[trigger] joins(edges[k], li, lj) {
            let k = choose|k: int| 0 <= k < edges.len() && #[trigger] joins(edges[k], li, lj);
            if k < init.len() {
                assert(init[k] == edges[k]);
                let q = choose|q: int| 0 <= q < after0.len() && #[trigger] joins(after0[q], i, j);
                assert(after[q] == after0[q]);
            } else {
                assert(e == edges[k]);
                assert(li != index && lj != index);
                assert(after[after0.len() as int] == reindexed(e, index));
                assert(joins(after[after0.len() as int], i, j));
            }
        }
    }
}

/// After agent `index` leaves, every other agent keeps its data and agents
/// `i` and `j` share a live channel exactly when the agents they were before
/// did: re-indexing keeps every remaining channel between the same agents.
pub proof fn lemma_leaving_keeps_links(before: &FleetGraph, after: &FleetGraph, index: int)
    requires
        0 <= index < before.agents@.len(),
        after.agents@ == before.agents@.remove(index),
        after.edges@ == edges_after_leaving(before.edges@, index),
    ensures
        forall|i: int| 0 <= i < after.agents@.len() ==> #[trigger] after.agents@[i] == before.agents@[lifted(i, index)],
        forall|i: int, j: int|
            0 <= i < after.agents@.len() && 0 <= j < after.agents@.len() ==> (#[trigger] after.linked(i, j)
                <==> before.linked(lifted(i, index), lifted(j, index))),
{
    assert forall|i: int, j: int|
        0 <= i < after.agents@.len() && 0 <= j < after.agents@.len() implies (#[trigger] after.linked(i, j)
            <==> before.linked(lifted(i, index), lifted(j, index))) by {
        lemma_leaving_joins(before.edges@, index, i, j);
    }
}

/// How a fleet's connectivity changed between two snapshots.
#[derive(Debug, Clone, Copy, PartialEq, Eq, Structural)]
pub enum ConnectivityShift {
    /// The fleet was connected and no longer is.
    Disconnected,
    /// The fleet was not connected and now is.
    Connected,
}

/// Whether a fleet counts as connected in a snapshot: it forms exactly one
/// connected component (an empty fleet forms none).
pub open spec fn one_component(components: int) -> bool {
    components == 1
}

/// The connectivity change from a snapshot with `before` connected components
/// to one with `after`, if connectivity changed at all.
pub fn connectivity_shift(before: usize, after: usize) -> (r: Option<ConnectivityShift>)
    ensures
        r is None <==> (one_component(before as int) == one_component(after as int)),
        r == Some(ConnectivityShift::Disconnected) <==> one_component(before as int) && !one_component(after as int),
        r == Some(ConnectivityShift::Connected) <==> !one_component(before as int) && one_component(after as int),
{
    let was = before == 1;
    let now = after == 1;
    if was == now {
        None
    } else if was {
        Some(ConnectivityShift::Disconnected)
    } else {
        Some(ConnectivityShift::Connected)
    }
}

} // verus!
