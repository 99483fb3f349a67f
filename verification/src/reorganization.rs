//! Fleet reorganization measures and suggestions.
//!
//! Hop-count measures of the fleet (diameter, total and number of shortest
//! paths) and the structural parts of the reorganization suggestions: which
//! far-apart agents to link to reduce latency, and how suggestion lists are
//! merged.

use vstd::prelude::*;
use crate::bottleneck::{pair_less, pairs_sorted};
use crate::fleet_graph::FleetGraph;
use crate::paths::{
    all_reachable, distance, distances_from, grid, has_link, is_distance, lemma_distance_unique, lemma_within_mono,
    lemma_within_zero, link, reachable, well_shaped, within,
};

verus! {

/// `d` is the diameter of `adj`: every reachable pair is within `d` links,
/// and some pair is exactly `d` links apart (unless `d` is zero).
pub open spec fn is_diameter(adj: Seq<Seq<bool>>, d: nat) -> bool {
    &&& forall|s: int, t: int| #[trigger] reachable(adj, s, t) ==> within(adj, s, t, d)
    &&& d == 0 || exists|s: int, t: int| #[trigger] is_distance(adj, s, t, d)
}

/// Distance rows from every agent, as computed by breadth-first search.
pub open spec fn is_distance_table(adj: Seq<Seq<bool>>, table: Seq<Seq<Option<usize>>>) -> bool {
    &&& table.len() == adj.len()
    &&& forall|s: int| 0 <= s < adj.len() ==> (#[trigger] table[s]).len() == adj.len()
    &&& forall|s: int, t: int|
        0 <= s < adj.len() && 0 <= t < adj.len() ==> match #[trigger] table[s][t] {
            Some(d) => d == distance(adj, s, t) && reachable(adj, s, t) && d < adj.len(),
            None => !reachable(adj, s, t),
        }
}

/// Hop distances between every pair of agents.
fn distance_table(adj: &Vec<Vec<bool>>) -> (table: Vec<Vec<Option<usize>>>)
    requires
        well_shaped(grid(adj@)),
    ensures
        is_distance_table(grid(adj@), table@.map_values(|r: Vec<Option<usize>>| r@)),
{
    let n = adj.len();
    let ghost g = grid(adj@);
    let mut table: Vec<Vec<Option<usize>>> = Vec::new();
    let mut s: usize = 0;
    while s < n
        invariant
            n == adj@.len(),
            g == grid(adj@),
            well_shaped(g),
            s <= n,
            table@.len() == s,
            forall|a: int| 0 <= a < s ==> (#[trigger] table@[a])@.len() == n,
            forall|a: int, t: int|
                0 <= a < s && 0 <= t < n ==> match #[trigger] table@[a]@[t] {
                    Some(d) => d == distance(g, a, t) && reachable(g, a, t) && d < n,
                    None => !reachable(g, a, t),
                },
        decreases n - s,
    {
        let row = distances_from(adj, s);
        proof {
            assert forall|t: int| 0 <= t < n && #[trigger] row@[t] is Some implies row@[t].unwrap() == distance(
                g,
                s as int,
                t,
            ) && reachable(g, s as int, t) by {
                lemma_distance_unique(g, s as int, t, row@[t].unwrap() as nat);
            }
        }
        table.push(row);
        s = s + 1;
    }
    proof {
        let tv = table@.map_values(|r: Vec<Option<usize>>| r@);
        assert forall|a: int| 0 <= a < n implies (#[trigger] tv[a]).len() == n by {
            assert(tv[a] == table@[a]@);
        }
        assert forall|a: int, t: int| 0 <= a < n && 0 <= t < n implies match #[trigger] tv[a][t] {
            Some(d) => d == distance(g, a, t) && reachable(g, a, t) && d < n,
            None => !reachable(g, a, t),
        } by {
            assert(tv[a] == table@[a]@);
        }
    }
    table
}

/// Hop distances between every pair of agents: entry `[s][t]` is the length
/// of a shortest walk over live channels from `s` to `t`, or `None` when `t`
/// cannot be reached from `s`.
pub fn hop_distances(graph: &FleetGraph) -> (table: Vec<Vec<Option<usize>>>)
    requires
        graph.wf(),
    ensures
        is_distance_table(graph.adjacency(), table@.map_values(|r: Vec<Option<usize>>| r@)),
{
    let adj = graph.link_matrix();
    distance_table(&adj)
}

/// Compute the graph diameter: the largest hop distance between two agents
/// that can reach each other (0 for fewer than two agents).
pub fn diameter(graph: &FleetGraph) -> (d: usize)
    requires
        graph.wf(),
    ensures
        is_diameter(graph.adjacency(), d as nat),
{
    let n = graph.node_count();
    let adj = graph.link_matrix();
    let ghost g = grid(adj@);
    if n <= 1 {
        proof {
            assert forall|s: int, t: int| #[trigger] reachable(g, s, t) implies within(g, s, t, 0) by {
                let k = choose|k: nat| #[trigger] within(g, s, t, k);
                crate::paths::lemma_within_bounds(g, s, t, k);
                lemma_within_zero(g, s);
            }
        }
        return 0;
    }
    let mut best: usize = 0;
    let mut s: usize = 0;
    while s < n
        invariant
            n == adj@.len(),
            g == grid(adj@),
            g == graph.adjacency(),
            well_shaped(g),
            s <= n,
            forall|a: int, t: int| 0 <= a < s && #[trigger] reachable(g, a, t) ==> within(g, a, t, best as nat),
            best == 0 || exists|a: int, t: int| #[trigger] is_distance(g, a, t, best as nat),
        decreases n - s,
    {
        let dist = distances_from(&adj, s);
        let ghost best0 = best;
        let mut t: usize = 0;
        while t < n
            invariant
                n == adj@.len(),
                g == grid(adj@),
                well_shaped(g),
                s < n,
                t <= n,
                dist@.len() == n,
                forall|x: int|
                    0 <= x < n ==> match #[trigger] dist@[x] {
                        Some(d) => is_distance(g, s as int, x, d as nat) && d < n,
                        None => !reachable(g, s as int, x),
                    },
                best0 <= best,
                forall|a: int, x: int| 0 <= a < s && #[trigger] reachable(g, a, x) ==> within(g, a, x, best0 as nat),
                forall|x: int| 0 <= x < t && #[trigger] reachable(g, s as int, x) ==> within(g, s as int, x, best as nat),
                best == 0 || exists|a: int, x: int| #[trigger] is_distance(g, a, x, best as nat),
            decreases n - t,
        {
            let ghost best1 = best;
            match dist[t] {
                Some(d) => {
                    if d > best {
                        best = d;
                    }
                    proof {
                        assert forall|x: int| 0 <= x < t + 1 && #[trigger] reachable(g, s as int, x) implies within(
                            g,
                            s as int,
                            x,
                            best as nat,
                        ) by {
                            if x < t {
                                lemma_within_mono(g, s as int, x, best1 as nat, best as nat);
                            } else {
                                lemma_within_mono(g, s as int, x, d as nat, best as nat);
                            }
                        }
                        if d > best1 {
                            assert(is_distance(g, s as int, t as int, best as nat));
                        }
                    }
                },
                None => {},
            }
            t = t + 1;
        }
        proof {
            assert forall|a: int, x: int| 0 <= a < s + 1 && #[trigger] reachable(g, a, x) implies within(
                g,
                a,
                x,
                best as nat,
            ) by {
                if a < s {
                    lemma_within_mono(g, a, x, best0 as nat, best as nat);
                } else {
                    let k = choose|k: nat| #[trigger] within(g, a, x, k);
                    crate::paths::lemma_within_bounds(g, a, x, k);
                }
            }
        }
        s = s + 1;
    }
    proof {
        assert forall|a: int, t: int| #[trigger] reachable(g, a, t) implies within(g, a, t, best as nat) by {
            let k = choose|k: nat| #[trigger] within(g, a, t, k);
            crate::paths::lemma_within_bounds(g, a, t, k);
        }
    }
    best
}

/// Sum of the hop distances from `s` to the agents `t < m`, `t != s`, that it reaches.
pub open spec fn row_total(adj: Seq<Seq<bool>>, s: int, m: int) -> int
    decreases m,
{
    if m <= 0 {
        0
    } else {
        row_total(adj, s, m - 1) + if m - 1 != s && reachable(adj, s, m - 1) {
            distance(adj, s, m - 1) as int
        } else {
            0
        }
    }
}

/// Number of agents `t < m`, `t != s`, that `s` reaches.
pub open spec fn row_count(adj: Seq<Seq<bool>>, s: int, m: int) -> int
    decreases m,
{
    if m <= 0 {
        0
    } else {
        row_count(adj, s, m - 1) + if m - 1 != s && reachable(adj, s, m - 1) {
            1int
        } else {
            0
        }
    }
}

/// Sum of all shortest-path lengths from the sources `s < m`.
pub open spec fn path_total(adj: Seq<Seq<bool>>, m: int) -> int
    decreases m,
{
    if m <= 0 {
        0
    } else {
        path_total(adj, m - 1) + row_total(adj, m - 1, adj.len() as int)
    }
}

/// Number of ordered pairs of distinct connected agents, over the sources `s < m`.
pub open spec fn path_count(adj: Seq<Seq<bool>>, m: int) -> int
    decreases m,
{
    if m <= 0 {
        0
    } else {
        path_count(adj, m - 1) + row_count(adj, m - 1, adj.len() as int)
    }
}

/// A reachable agent is at its hop distance.
proof fn lemma_distance_exists(adj: Seq<Seq<bool>>, s: int, t: int, k: nat)
    requires
        within(adj, s, t, k),
    ensures
        is_distance(adj, s, t, distance(adj, s, t)),
        distance(adj, s, t) <= k,
    decreases k,
{
    if k > 0 && within(adj, s, t, (k - 1) as nat) {
        lemma_distance_exists(adj, s, t, (k - 1) as nat);
    } else {
        assert forall|j: nat| j < k implies !#[trigger] within(adj, s, t, j) by {
            if within(adj, s, t, j) {
                lemma_within_mono(adj, s, t, j, (k - 1) as nat);
            }
        }
        assert(is_distance(adj, s, t, k));
        lemma_distance_unique(adj, s, t, k);
    }
}

/// Distinct agents are at least one link apart, and linked ones exactly one.
proof fn lemma_distance_of_distinct(adj: Seq<Seq<bool>>, s: int, t: int)
    requires
        s != t,
        reachable(adj, s, t),
    ensures
        distance(adj, s, t) >= 1,
        link(adj, s, t) ==> distance(adj, s, t) == 1,
{
    let k = choose|k: nat| #[trigger] within(adj, s, t, k);
    lemma_distance_exists(adj, s, t, k);
    if distance(adj, s, t) == 0 {
        crate::paths::lemma_within_zero_same(adj, s, t);
    }
    if link(adj, s, t) {
        lemma_within_zero(adj, s);
        crate::paths::lemma_within_step(adj, s, s, t, 0);
        lemma_distance_exists(adj, s, t, 1);
    }
}

/// Row sums from source `s`: at most one counted agent per target, each
/// adding at least one link; all targets but `s` are counted when every
/// agent reaches every other; and each adds exactly one link when `s` is
/// linked to every other agent.
proof fn lemma_row_sums(adj: Seq<Seq<bool>>, s: int, m: int)
    requires
        0 <= m <= adj.len(),
    ensures
        0 <= row_count(adj, s, m) <= m - if 0 <= s < m { 1int } else { 0 },
        row_count(adj, s, m) <= row_total(adj, s, m),
        all_reachable(adj) && 0 <= s < adj.len() ==> row_count(adj, s, m) == m - if 0 <= s < m { 1int } else { 0 },
        (forall|t: int| 0 <= t < adj.len() && t != s ==> #[trigger] link(adj, s, t)) ==> row_total(adj, s, m)
            == row_count(adj, s, m),
    decreases m,
{
    if m > 0 {
        lemma_row_sums(adj, s, m - 1);
        let t = m - 1;
        if t != s && reachable(adj, s, t) {
            lemma_distance_of_distinct(adj, s, t);
        }
        if all_reachable(adj) && 0 <= s < adj.len() {
            assert(reachable(adj, s, t));
        }
    }
}

/// The sums behind the average shortest-path length over all `n` agents:
/// the number of ordered pairs of distinct connected agents is at most
/// `n * (n - 1)`, and exactly that when every agent reaches every other; each
/// counted pair adds at least one link to the total, and exactly one when
/// every two distinct agents are linked (so the average is then 1).
pub proof fn lemma_path_sums_law(adj: Seq<Seq<bool>>)
    ensures
        0 <= path_count(adj, adj.len() as int) <= adj.len() * (adj.len() - 1),
        path_count(adj, adj.len() as int) <= path_total(adj, adj.len() as int),
        all_reachable(adj) ==> path_count(adj, adj.len() as int) == adj.len() * (adj.len() - 1),
        (forall|s: int, t: int| 0 <= s < adj.len() && 0 <= t < adj.len() && s != t ==> #[trigger] link(adj, s, t))
            ==> path_total(adj, adj.len() as int) == path_count(adj, adj.len() as int),
{
    lemma_path_sums_prefix(adj, adj.len() as int);
}

/// The sums over the sources `s < m`.
proof fn lemma_path_sums_prefix(adj: Seq<Seq<bool>>, m: int)
    requires
        0 <= m <= adj.len(),
    ensures
        0 <= path_count(adj, m) <= m * (adj.len() - 1),
        path_count(adj, m) <= path_total(adj, m),
        all_reachable(adj) ==> path_count(adj, m) == m * (adj.len() - 1),
        (forall|s: int, t: int| 0 <= s < adj.len() && 0 <= t < adj.len() && s != t ==> #[trigger] link(adj, s, t))
            ==> path_total(adj, m) == path_count(adj, m),
    decreases m,
{
    if m > 0 {
        let n = adj.len() as int;
        lemma_path_sums_prefix(adj, m - 1);
        lemma_row_sums(adj, m - 1, n);
        assert(m * (n - 1) == (m - 1) * (n - 1) + (n - 1)) by (nonlinear_arith);
        if (forall|s: int, t: int| 0 <= s < adj.len() && 0 <= t < adj.len() && s != t ==> #[trigger] link(adj, s, t)) {
            assert(forall|t: int| 0 <= t < adj.len() && t != m - 1 ==> #[trigger] link(adj, m - 1, t));
        }
    }
}

/// The two sums behind the average shortest-path length: the total hop
/// length of the shortest paths between ordered pairs of distinct agents
/// that can reach each other, and the number of such pairs. The average is
/// `total / count`, or 0 when there is no such pair.
pub fn path_length_totals(graph: &FleetGraph) -> (r: (u128, u128))
    requires
        graph.wf(),
        graph.agents@.len() <= u32::MAX,
    ensures
        r.0 == path_total(graph.adjacency(), graph.agents@.len() as int),
        r.1 == path_count(graph.adjacency(), graph.agents@.len() as int),
        r.1 <= r.0,
        r.1 <= graph.agents@.len() * (graph.agents@.len() - 1),
        all_reachable(graph.adjacency()) ==> r.1 == graph.agents@.len() * (graph.agents@.len() - 1),
{
    let n = graph.node_count();
    let adj = graph.link_matrix();
    let ghost g = grid(adj@);
    let ghost nn = n as int;
    let mut total: u128 = 0;
    let mut count: u128 = 0;
    let mut s: usize = 0;
    while s < n
        invariant
            n == adj@.len(),
            nn == n,
            n <= u32::MAX,
            g == grid(adj@),
            g == graph.adjacency(),
            well_shaped(g),
            s <= n,
            total == path_total(g, s as int),
            count == path_count(g, s as int),
            total <= s * nn * nn,
            count <= s * nn,
        decreases n - s,
    {
        let dist = distances_from(&adj, s);
        let mut row_sum: u128 = 0;
        let mut row_num: u128 = 0;
        let mut t: usize = 0;
        while t < n
            invariant
                n == adj@.len(),
                nn == n,
                n <= u32::MAX,
                g == grid(adj@),
                well_shaped(g),
                s < n,
                t <= n,
                dist@.len() == n,
                forall|x: int|
                    0 <= x < n ==> match #[trigger] dist@[x] {
                        Some(d) => is_distance(g, s as int, x, d as nat) && d < n,
                        None => !reachable(g, s as int, x),
                    },
                row_sum == row_total(g, s as int, t as int),
                row_num == row_count(g, s as int, t as int),
                row_sum <= t * nn,
                row_num <= t,
            decreases n - t,
        {
            if t != s {
                match dist[t] {
                    Some(d) => {
                        proof {
                            lemma_distance_unique(g, s as int, t as int, d as nat);
                            assert(t * nn <= nn * nn) by (nonlinear_arith)
                                requires
                                    t < nn,
                            ;
                            assert(nn * nn <= 0xffff_ffffu128 * 0xffff_ffffu128) by (nonlinear_arith)
                                requires
                                    0 <= nn <= 0xffff_ffff,
                            ;
                        }
                        row_sum = row_sum + d as u128;
                        row_num = row_num + 1;
                    },
                    None => {},
                }
            }
            proof {
                assert((t + 1) * nn == t * nn + nn) by (nonlinear_arith);
            }
            t = t + 1;
        }
        proof {
            assert(row_sum <= nn * nn) by (nonlinear_arith)
                requires
                    row_sum <= t * nn,
                    t == nn,
            ;
            assert((s + 1) * nn * nn == s * nn * nn + nn * nn) by (nonlinear_arith);
            assert((s + 1) * nn == s * nn + nn) by (nonlinear_arith);
            assert(s * nn * nn + nn * nn <= nn * nn * nn) by (nonlinear_arith)
                requires
                    s < nn,
            ;
            assert(nn * nn * nn <= 0xffff_ffffu128 * 0xffff_ffffu128 * 0xffff_ffffu128) by (nonlinear_arith)
                requires
                    0 <= nn <= 0xffff_ffff,
            ;
            assert(s * nn + nn <= nn * nn) by (nonlinear_arith)
                requires
                    s < nn,
            ;
            assert(nn * nn <= 0xffff_ffffu128 * 0xffff_ffffu128) by (nonlinear_arith)
                requires
                    0 <= nn <= 0xffff_ffff,
            ;
        }
        total = total + row_sum;
        count = count + row_num;
        s = s + 1;
    }
    proof {
        lemma_path_sums_law(graph.adjacency());
    }
    (total, count)
}

/// Agents `i < j` are not linked but can reach each other: a new channel
/// between them would shorten their route.
pub open spec fn far_pair(adj: Seq<Seq<bool>>, p: (usize, usize)) -> bool {
    &&& p.0 < p.1 < adj.len()
    &&& !link(adj, p.0 as int, p.1 as int)
    &&& reachable(adj, p.0 as int, p.1 as int)
}

/// Candidate `p` ranks before candidate `q`: farther apart, or equally far
/// and lexicographically smaller.
pub open spec fn ranks_before(adj: Seq<Seq<bool>>, p: (usize, usize), q: (usize, usize)) -> bool {
    let dp = distance(adj, p.0 as int, p.1 as int);
    let dq = distance(adj, q.0 as int, q.1 as int);
    dp > dq || (dp == dq && pair_less(p, q))
}

/// `r` holds the first candidates in rank order, at most `max` of them.
pub open spec fn is_top_ranked(
    adj: Seq<Seq<bool>>,
    r: Seq<(usize, usize)>,
    max: int,
    cand: spec_fn((usize, usize)) -> bool,
) -> bool {
    &&& r.len() <= max
    &&& forall|k: int| 0 <= k < r.len() ==> cand(#[trigger] r[k])
    &&& forall|k: int, l: int| 0 <= k < l < r.len() ==> ranks_before(adj, #[trigger] r[k], #[trigger] r[l])
    &&& forall|c: (usize, usize)|
        cand(c) && !r.contains(c) ==> r.len() == max && forall|k: int|
            0 <= k < r.len() ==> ranks_before(adj, #[trigger] r[k], c)
}

/// Candidate `c` comes before the scan position: level `lvl`, pair `pos`.
pub open spec fn scanned(adj: Seq<Seq<bool>>, c: (usize, usize), lvl: int, pos: (usize, usize)) -> bool {
    let dc = distance(adj, c.0 as int, c.1 as int);
    dc > lvl || (dc == lvl && pair_less(c, pos))
}

/// Suggest channels that shorten the longest routes: the pairs of unlinked
/// agents that can reach each other, farthest apart first (ties in
/// lexicographic order), at most `max_suggestions` of them.
pub fn suggest_for_diameter(graph: &FleetGraph, max_suggestions: usize) -> (r: Vec<(usize, usize)>)
    requires
        graph.wf(),
    ensures
        is_top_ranked(
            graph.adjacency(),
            r@,
            max_suggestions as int,
            |p: (usize, usize)| far_pair(graph.adjacency(), p),
        ),
{
    let n = graph.node_count();
    let adj = graph.link_matrix();
    let ghost g = grid(adj@);
    let ghost cand = |p: (usize, usize)| far_pair(g, p);
    let table = distance_table(&adj);
    let ghost tv = table@.map_values(|r: Vec<Option<usize>>| r@);
    let mut r: Vec<(usize, usize)> = Vec::new();
    proof {
        assert forall|c: (usize, usize)| #[trigger] far_pair(g, c) implies distance(g, c.0 as int, c.1 as int) < n by {
            assert(tv[c.0 as int][c.1 as int] is Some);
        }
    }
    let mut e: usize = 0;
    while e < n
        invariant
            forall|c: (usize, usize)| #[trigger] far_pair(g, c) ==> distance(g, c.0 as int, c.1 as int) < n,
            n == adj@.len(),
            g == grid(adj@),
            g == graph.adjacency(),
            well_shaped(g),
            cand == |p: (usize, usize)| far_pair(g, p),
            tv == table@.map_values(|r: Vec<Option<usize>>| r@),
            is_distance_table(g, tv),
            e <= n,
            r@.len() <= max_suggestions,
            forall|k: int| 0 <= k < r@.len() ==> cand(#[trigger] r@[k]),
            forall|k: int, l: int| 0 <= k < l < r@.len() ==> ranks_before(g, #[trigger] r@[k], #[trigger] r@[l]),
            forall|k: int| 0 <= k < r@.len() ==> scanned(g, #[trigger] r@[k], n - 1 - e, (0usize, 0usize)),
            forall|c: (usize, usize)|
                cand(c) && scanned(g, c, n - 1 - e, (0usize, 0usize)) && !r@.contains(c) ==> r@.len()
                    == max_suggestions && forall|k: int| 0 <= k < r@.len() ==> ranks_before(g, #[trigger] r@[k], c),
        decreases n - e,
    {
        let lvl = n - 1 - e;
        let mut i: usize = 0;
        while i < n
            invariant
                n == adj@.len(),
                g == grid(adj@),
                well_shaped(g),
                cand == |p: (usize, usize)| far_pair(g, p),
                tv == table@.map_values(|r: Vec<Option<usize>>| r@),
                is_distance_table(g, tv),
                e < n,
                lvl == n - 1 - e,
                i <= n,
                r@.len() <= max_suggestions,
                forall|k: int| 0 <= k < r@.len() ==> cand(#[trigger] r@[k]),
                forall|k: int, l: int| 0 <= k < l < r@.len() ==> ranks_before(g, #[trigger] r@[k], #[trigger] r@[l]),
                forall|k: int| 0 <= k < r@.len() ==> scanned(g, #[trigger] r@[k], lvl as int, (i, 0usize)),
                forall|c: (usize, usize)|
                    cand(c) && scanned(g, c, lvl as int, (i, 0usize)) && !r@.contains(c) ==> r@.len()
                        == max_suggestions && forall|k: int| 0 <= k < r@.len() ==> ranks_before(g, #[trigger] r@[k], c),
            decreases n - i,
        {
            let mut j: usize = i + 1;
            while j < n
                invariant
                    n == adj@.len(),
                    g == grid(adj@),
                    well_shaped(g),
                    cand == |p: (usize, usize)| far_pair(g, p),
                    tv == table@.map_values(|r: Vec<Option<usize>>| r@),
                    is_distance_table(g, tv),
                    lvl < n,
                    i < n,
                    i + 1 <= j <= n,
                    r@.len() <= max_suggestions,
                    forall|k: int| 0 <= k < r@.len() ==> cand(#[trigger] r@[k]),
                    forall|k: int, l: int|
                        0 <= k < l < r@.len() ==> ranks_before(g, #[trigger] r@[k], #[trigger] r@[l]),
                    forall|k: int| 0 <= k < r@.len() ==> scanned(g, #[trigger] r@[k], lvl as int, (i, j)),
                    forall|c: (usize, usize)|
                        cand(c) && scanned(g, c, lvl as int, (i, j)) && !r@.contains(c) ==> r@.len()
                            == max_suggestions && forall|k: int|
                            0 <= k < r@.len() ==> ranks_before(g, #[trigger] r@[k], c),
                decreases n - j,
            {
                let ghost before = r@;
                let row = &table[i];
                assert(tv[i as int] == table@[i as int]@);
                let here = (i, j);
                let is_cand = !has_link(&adj, i, j) && match row[j] {
                    Some(d) => d == lvl,
                    None => false,
                };
                proof {
                    assert(tv[i as int][j as int] == row@[j as int]);
                }
                if is_cand && r.len() < max_suggestions {
                    r.push(here);
                    proof {
                        assert(r@[r@.len() - 1] == here);
                        assert forall|k: int, l: int|
                            0 <= k < l < r@.len() implies ranks_before(g, #[trigger] r@[k], #[trigger] r@[l]) by {
                            assert(r@[k] == before[k]);
                            if l < before.len() {
                                assert(r@[l] == before[l]);
                            } else {
                                assert(scanned(g, before[k], lvl as int, (i, j)));
                            }
                        }
                    }
                }
                proof {
                    let next = (i, (j + 1) as usize);
                    assert forall|k: int| 0 <= k < r@.len() implies scanned(g, #[trigger] r@[k], lvl as int, next) by {
                        if k < before.len() {
                            assert(r@[k] == before[k]);
                            assert(scanned(g, before[k], lvl as int, (i, j)));
                        }
                    }
                    assert forall|c: (usize, usize)|
                        cand(c) && scanned(g, c, lvl as int, next) && !r@.contains(c) implies r@.len()
                            == max_suggestions && forall|k: int|
                            0 <= k < r@.len() ==> ranks_before(g, #[trigger] r@[k], c) by {
                        assert(far_pair(g, c));
                        if !scanned(g, c, lvl as int, (i, j)) {
                            assert(c == here);
                            let dc = tv[i as int][j as int];
                            assert(dc is Some);
                            assert(is_cand);
                            if r@.len() < max_suggestions {
                                assert(r@.len() == before.len());
                                assert(false);
                            }
                            assert forall|k: int| 0 <= k < r@.len() implies ranks_before(g, #[trigger] r@[k], c) by {
                                assert(scanned(g, r@[k], lvl as int, (i, j)));
                            }
                        } else {
                            assert(scanned(g, c, lvl as int, (i, j)));
                            assert(!before.contains(c)) by {
                                if before.contains(c) {
                                    let k = choose|k: int| 0 <= k < before.len() && before[k] == c;
                                    assert(r@[k] == c);
                                }
                            }
                            if r@.len() != before.len() {
                                assert(before.len() == max_suggestions);
                                assert(false);
                            }
                            assert forall|k: int| 0 <= k < r@.len() implies ranks_before(g, #[trigger] r@[k], c) by {
                                assert(r@[k] == before[k]);
                            }
                        }
                    }
                }
                j = j + 1;
            }
            proof {
                let next = ((i + 1) as usize, 0usize);
                assert forall|k: int| 0 <= k < r@.len() implies scanned(g, #[trigger] r@[k], lvl as int, next) by {
                    assert(scanned(g, r@[k], lvl as int, (i, j)));
                }
                assert forall|c: (usize, usize)|
                    cand(c) && scanned(g, c, lvl as int, next) && !r@.contains(c) implies r@.len()
                        == max_suggestions && forall|k: int| 0 <= k < r@.len() ==> ranks_before(g, #[trigger] r@[k], c) by {
                    assert(far_pair(g, c));
                    assert(scanned(g, c, lvl as int, (i, j)));
                }
            }
            i = i + 1;
        }
        proof {
            assert forall|k: int| 0 <= k < r@.len() implies scanned(g, #[trigger] r@[k], n - 1 - (e + 1), (0usize, 0usize)) by {
                assert(scanned(g, r@[k], lvl as int, (i, 0usize)));
                assert(far_pair(g, r@[k]));
            }
            assert forall|c: (usize, usize)|
                cand(c) && scanned(g, c, n - 1 - (e + 1), (0usize, 0usize)) && !r@.contains(c) implies r@.len()
                    == max_suggestions && forall|k: int| 0 <= k < r@.len() ==> ranks_before(g, #[trigger] r@[k], c) by {
                assert(far_pair(g, c));
                assert(scanned(g, c, lvl as int, (i, 0usize)));
            }
        }
        e = e + 1;
    }
    proof {
        assert forall|c: (usize, usize)| cand(c) && !r@.contains(c) implies r@.len() == max_suggestions && forall|k: int|
            0 <= k < r@.len() ==> ranks_before(g, #[trigger] r@[k], c) by {
            assert(far_pair(g, c));
            assert(scanned(g, c, -1, (0usize, 0usize)));
        }
    }
    r
}

/// Pairs `(i, j)`, `i < j`, of agents without a live channel, in increasing
/// lexicographic order: the channels that could still be added.
pub fn unlinked_pairs(graph: &FleetGraph) -> (r: Vec<(usize, usize)>)
    requires
        graph.wf(),
    ensures
        pairs_sorted(r@),
        forall|p: (usize, usize)|
            r@.contains(p) <==> p.0 < p.1 < graph.agents@.len() && !graph.linked(p.0 as int, p.1 as int),
{
    let n = graph.node_count();
    let adj = graph.link_matrix();
    let ghost g = grid(adj@);
    let mut r: Vec<(usize, usize)> = Vec::new();
    let mut i: usize = 0;
    while i < n
        invariant
            n == adj@.len(),
            n == graph.agents@.len(),
            g == grid(adj@),
            g == graph.adjacency(),
            well_shaped(g),
            i <= n,
            pairs_sorted(r@),
            forall|k: int| 0 <= k < r@.len() ==> (#[trigger] r@[k]).0 < i,
            forall|p: (usize, usize)| r@.contains(p) <==> p.0 < i && p.0 < p.1 < n && !g[p.0 as int][p.1 as int],
        decreases n - i,
    {
        let mut j: usize = i + 1;
        while j < n
            invariant
                n == adj@.len(),
                g == grid(adj@),
                well_shaped(g),
                i < n,
                i + 1 <= j <= n,
                pairs_sorted(r@),
                forall|k: int| 0 <= k < r@.len() ==> pair_less(#[trigger] r@[k], (i, j)),
                forall|p: (usize, usize)|
                    r@.contains(p) <==> (p.0 < i || (p.0 == i && p.1 < j)) && p.0 < p.1 < n && !g[p.0 as int][p.1
                        as int],
            decreases n - j,
        {
            let ghost before = r@;
            if !has_link(&adj, i, j) {
                r.push((i, j));
                proof {
                    assert forall|x: int, y: int| 0 <= x < y < r@.len() implies pair_less(#[trigger] r@[x], #[trigger] r@[y]) by {
                        assert(r@[x] == before[x]);
                        if y < before.len() {
                            assert(r@[y] == before[y]);
                        }
                    }
                }
            }
            proof {
                assert forall|k: int| 0 <= k < r@.len() implies pair_less(#[trigger] r@[k], (i, (j + 1) as usize)) by {
                    if k < before.len() {
                        assert(r@[k] == before[k]);
                    }
                }
                assert forall|p: (usize, usize)|
                    r@.contains(p) <==> (p.0 < i || (p.0 == i && p.1 < j + 1)) && p.0 < p.1 < n && !g[p.0 as int][p.1
                        as int] by {
                    if r@.contains(p) && p != (i, j) {
                        let k = choose|k: int| 0 <= k < r@.len() && r@[k] == p;
                        assert(before[k] == p);
                        assert(before.contains(p));
                    }
                    if r@.contains(p) && p == (i, j) && before.contains(p) {
                        let k = choose|k: int| 0 <= k < before.len() && before[k] == p;
                        assert(pair_less(before[k], (i, j)));
                    }
                    if (p.0 < i || (p.0 == i && p.1 < j)) && p.0 < p.1 < n && !g[p.0 as int][p.1 as int] {
                        assert(before.contains(p));
                        let k = choose|k: int| 0 <= k < before.len() && before[k] == p;
                        assert(r@[k] == p);
                    }
                    if p == (i, j) && !g[i as int][j as int] {
                        assert(r@[r@.len() - 1] == p);
                    }
                }
            }
            j = j + 1;
        }
        proof {
            assert forall|k: int| 0 <= k < r@.len() implies (#[trigger] r@[k]).0 < i + 1 by {
                assert(pair_less(r@[k], (i, n)));
            }
        }
        i = i + 1;
    }
    r
}

/// The pairs `(order[i], order[j])`, `i < j < low`, of agents early in `order`
/// that share no live channel, for the rows `i < end`, in order of `(i, j)`.
pub open spec fn light_pairs(graph: &FleetGraph, order: Seq<usize>, low: int, end: int) -> Seq<(usize, usize)>
    decreases end,
{
    if end <= 0 {
        Seq::empty()
    } else {
        light_pairs(graph, order, low, end - 1) + light_row(graph, order, end - 1, low)
    }
}

/// Row `i` of [`light_pairs`], over the columns `i < j < end`.
pub open spec fn light_row(graph: &FleetGraph, order: Seq<usize>, i: int, end: int) -> Seq<(usize, usize)>
    decreases end - i,
{
    if end <= i + 1 {
        Seq::empty()
    } else {
        light_row(graph, order, i, end - 1) + if !graph.linked(order[i] as int, order[end - 1] as int) {
            seq![(order[i], order[end - 1])]
        } else {
            Seq::empty()
        }
    }
}

/// The channels between heavy agents, as `(smaller, larger)` pairs, found
/// from the heavy agents `order[i]`, `start <= i < end`: for each, its live
/// channels to heavy agents `j`, in increasing `j`.
pub open spec fn heavy_pairs(
    graph: &FleetGraph,
    order: Seq<usize>,
    heavy: Seq<bool>,
    start: int,
    end: int,
) -> Seq<(usize, usize)>
    decreases end - start,
{
    if end <= start {
        Seq::empty()
    } else {
        heavy_pairs(graph, order, heavy, start, end - 1) + if heavy[order[end - 1] as int] {
            heavy_row(graph, heavy, order[end - 1] as int, graph.agents@.len() as int)
        } else {
            Seq::empty()
        }
    }
}

/// The live channels from heavy agent `a` to heavy agents `j < end`, `j != a`.
pub open spec fn heavy_row(graph: &FleetGraph, heavy: Seq<bool>, a: int, end: int) -> Seq<(usize, usize)>
    decreases end,
{
    if end <= 0 {
        Seq::empty()
    } else {
        let j = end - 1;
        heavy_row(graph, heavy, a, j) + if a != j && graph.linked(a, j) && heavy[j] {
            seq![(if a < j { a as usize } else { j as usize }, if a < j { j as usize } else { a as usize })]
        } else {
            Seq::empty()
        }
    }
}

/// Live channels run both ways.
proof fn lemma_linked_symmetric(graph: &FleetGraph, i: int, j: int)
    ensures
        graph.linked(i, j) == graph.linked(j, i),
{
    if graph.linked(i, j) {
        let k = choose|k: int| 0 <= k < graph.edges@.len() && #[trigger] crate::fleet_graph::joins(graph.edges@[k], i, j);
        assert(crate::fleet_graph::joins(graph.edges@[k], j, i));
    }
    if graph.linked(j, i) {
        let k = choose|k: int| 0 <= k < graph.edges@.len() && #[trigger] crate::fleet_graph::joins(graph.edges@[k], j, i);
        assert(crate::fleet_graph::joins(graph.edges@[k], i, j));
    }
}

/// The pair `(smaller, larger)` of two agents.
pub open spec fn ordered_pair(a: int, b: int) -> (usize, usize) {
    if a < b {
        (a as usize, b as usize)
    } else {
        (b as usize, a as usize)
    }
}

/// Row `a` of the heavy pairs: each entry joins `a` by a live channel to a
/// different heavy agent `j < end`, and every such agent appears.
proof fn lemma_heavy_row(graph: &FleetGraph, heavy: Seq<bool>, a: int, end: int)
    requires
        0 <= a < graph.agents@.len(),
        end <= graph.agents@.len(),
    ensures
        forall|k: int|
            0 <= k < heavy_row(graph, heavy, a, end).len() ==> {
                let p = #[trigger] heavy_row(graph, heavy, a, end)[k];
                &&& p.0 < p.1
                &&& graph.linked(p.0 as int, p.1 as int)
                &&& (p.0 == a && heavy[p.1 as int]) || (p.1 == a && heavy[p.0 as int])
            },
        forall|j: int|
            0 <= j < end && j != a && graph.linked(a, j) && heavy[j] ==> #[trigger] heavy_row(graph, heavy, a, end).contains(
                ordered_pair(a, j),
            ),
    decreases end,
{
    if end > 0 {
        let j = end - 1;
        lemma_heavy_row(graph, heavy, a, j);
        lemma_linked_symmetric(graph, a, j);
        let r0 = heavy_row(graph, heavy, a, j);
        let r = heavy_row(graph, heavy, a, end);
        assert forall|k: int| 0 <= k < r.len() implies {
            let p = #[trigger] r[k];
            &&& p.0 < p.1
            &&& graph.linked(p.0 as int, p.1 as int)
            &&& (p.0 == a && heavy[p.1 as int]) || (p.1 == a && heavy[p.0 as int])
        } by {
            if k < r0.len() {
                assert(r[k] == r0[k]);
            }
        }
        assert forall|x: int| 0 <= x < end && x != a && graph.linked(a, x) && heavy[x] implies #[trigger] r.contains(
            ordered_pair(a, x),
        ) by {
            if x < j {
                assert(r0.contains(ordered_pair(a, x)));
                let q = choose|q: int| 0 <= q < r0.len() && r0[q] == ordered_pair(a, x);
                assert(r[q] == r0[q]);
            } else {
                assert(r[r0.len() as int] == ordered_pair(a, x));
            }
        }
    }
}

/// The removals the balance plan draws from: every entry is a pair
/// `(smaller, larger)` of two heavy agents joined by a live channel, and every
/// live channel between a heavy agent ranked in `start..end` and another heavy
/// agent is among them.
pub proof fn lemma_heavy_pairs_law(graph: &FleetGraph, order: Seq<usize>, heavy: Seq<bool>, start: int, end: int)
    requires
        0 <= start,
        end <= order.len(),
        forall|i: int| start <= i < end ==> #[trigger] order[i] < graph.agents@.len(),
    ensures
        forall|k: int|
            0 <= k < heavy_pairs(graph, order, heavy, start, end).len() ==> {
                let p = #[trigger] heavy_pairs(graph, order, heavy, start, end)[k];
                &&& p.0 < p.1
                &&& heavy[p.0 as int]
                &&& heavy[p.1 as int]
                &&& graph.linked(p.0 as int, p.1 as int)
            },
        forall|i: int, j: int|
            start <= i < end && 0 <= j < graph.agents@.len() && j != order[i] && heavy[order[i] as int] && heavy[j]
                && graph.linked(order[i] as int, j) ==> #[trigger] heavy_pairs(graph, order, heavy, start, end).contains(
                ordered_pair(#[trigger] order[i] as int, j),
            ),
    decreases end - start,
{
    if end > start {
        lemma_heavy_pairs_law(graph, order, heavy, start, end - 1);
        let a = order[end - 1] as int;
        let n = graph.agents@.len() as int;
        lemma_heavy_row(graph, heavy, a, n);
        let s0 = heavy_pairs(graph, order, heavy, start, end - 1);
        let row = if heavy[a] { heavy_row(graph, heavy, a, n) } else { Seq::empty() };
        let s = heavy_pairs(graph, order, heavy, start, end);
        assert(s == s0 + row);
        assert forall|k: int| 0 <= k < s.len() implies {
            let p = #[trigger] s[k];
            &&& p.0 < p.1
            &&& heavy[p.0 as int]
            &&& heavy[p.1 as int]
            &&& graph.linked(p.0 as int, p.1 as int)
        } by {
            if k < s0.len() {
                assert(s[k] == s0[k]);
            } else {
                assert(s[k] == row[k - s0.len()]);
            }
        }
        assert forall|i: int, j: int|
            start <= i < end && 0 <= j < n && j != order[i] && heavy[order[i] as int] && heavy[j] && graph.linked(
                order[i] as int,
                j,
            ) implies #[trigger] s.contains(ordered_pair(#[trigger] order[i] as int, j)) by {
            if i < end - 1 {
                assert(s0.contains(ordered_pair(order[i] as int, j)));
                let q = choose|q: int| 0 <= q < s0.len() && s0[q] == ordered_pair(order[i] as int, j);
                assert(s[q] == s0[q]);
            } else {
                assert(row.contains(ordered_pair(a, j)));
                let q = choose|q: int| 0 <= q < row.len() && row[q] == ordered_pair(a, j);
                assert(s[s0.len() + q] == row[q]);
            }
        }
    }
}

/// Row `i` of the light pairs: each entry pairs `order[i]` with a later agent
/// `order[j]`, `j < end`, that it shares no live channel with, and every such
/// agent appears.
proof fn lemma_light_row(graph: &FleetGraph, order: Seq<usize>, i: int, end: int)
    ensures
        forall|k: int|
            0 <= k < light_row(graph, order, i, end).len() ==> exists|j: int|
                i < j < end && #[trigger] light_row(graph, order, i, end)[k] == (order[i], #[trigger] order[j])
                    && !graph.linked(order[i] as int, order[j] as int),
        forall|j: int|
            i < j < end && !graph.linked(order[i] as int, order[j] as int) ==> #[trigger] light_row(
                graph,
                order,
                i,
                end,
            ).contains((order[i], order[j])),
    decreases end - i,
{
    if end > i + 1 {
        lemma_light_row(graph, order, i, end - 1);
        let r0 = light_row(graph, order, i, end - 1);
        let r = light_row(graph, order, i, end);
        assert forall|k: int| 0 <= k < r.len() implies exists|j: int|
            i < j < end && #[trigger] r[k] == (order[i], #[trigger] order[j]) && !graph.linked(order[i] as int, order[j] as int) by {
            if k < r0.len() {
                assert(r[k] == r0[k]);
                let j = choose|j: int| i < j < end - 1 && r0[k] == (order[i], #[trigger] order[j])
                    && !graph.linked(order[i] as int, order[j] as int);
                assert(r[k] == (order[i], order[j]));
            } else {
                assert(r[k] == (order[i], order[end - 1]));
            }
        }
        assert forall|j: int| i < j < end && !graph.linked(order[i] as int, order[j] as int) implies #[trigger] r.contains(
            (order[i], order[j]),
        ) by {
            if j < end - 1 {
                assert(r0.contains((order[i], order[j])));
                let q = choose|q: int| 0 <= q < r0.len() && r0[q] == (order[i], order[j]);
                assert(r[q] == r0[q]);
            } else {
                assert(r[r0.len() as int] == (order[i], order[j]));
            }
        }
    }
}

/// The additions the balance plan draws from: every entry pairs two agents
/// ranked among the first `low`, the earlier one first, that share no live
/// channel; and every such pair with the earlier one ranked before `end` is
/// among them.
pub proof fn lemma_light_pairs_law(graph: &FleetGraph, order: Seq<usize>, low: int, end: int)
    ensures
        forall|k: int|
            0 <= k < light_pairs(graph, order, low, end).len() ==> exists|i: int, j: int|
                0 <= i < j < low && i < end && #[trigger] light_pairs(graph, order, low, end)[k] == (#[trigger] order[i], #[trigger] order[j])
                    && !graph.linked(order[i] as int, order[j] as int),
        forall|i: int, j: int|
            0 <= i < j < low && i < end && !graph.linked(order[i] as int, order[j] as int)
                ==> #[trigger] light_pairs(graph, order, low, end).contains((order[i], order[j])),
    decreases end,
{
    if end > 0 {
        lemma_light_pairs_law(graph, order, low, end - 1);
        lemma_light_row(graph, order, end - 1, low);
        let s0 = light_pairs(graph, order, low, end - 1);
        let row = light_row(graph, order, end - 1, low);
        let s = light_pairs(graph, order, low, end);
        assert(s == s0 + row);
        assert forall|k: int| 0 <= k < s.len() implies exists|i: int, j: int|
            0 <= i < j < low && i < end && #[trigger] s[k] == (#[trigger] order[i], #[trigger] order[j]) && !graph.linked(
                order[i] as int,
                order[j] as int,
            ) by {
            if k < s0.len() {
                assert(s[k] == s0[k]);
                let (i, j) = choose|i: int, j: int|
                    0 <= i < j < low && i < end - 1 && s0[k] == (#[trigger] order[i], #[trigger] order[j]) && !graph.linked(
                        order[i] as int,
                        order[j] as int,
                    );
                assert(s[k] == (order[i], order[j]));
            } else {
                assert(s[k] == row[k - s0.len()]);
                let j = choose|j: int| end - 1 < j < low && row[k - s0.len()] == (order[end - 1], #[trigger] order[j])
                    && !graph.linked(order[end - 1] as int, order[j] as int);
                assert(s[k] == (order[end - 1], order[j]));
            }
        }
        assert forall|i: int, j: int|
            0 <= i < j < low && i < end && !graph.linked(order[i] as int, order[j] as int) implies #[trigger] s.contains(
                (order[i], order[j]),
            ) by {
            if i < end - 1 {
                assert(s0.contains((order[i], order[j])));
                let q = choose|q: int| 0 <= q < s0.len() && s0[q] == (order[i], order[j]);
                assert(s[q] == s0[q]);
            } else {
                assert(row.contains((order[i], order[j])));
                let q = choose|q: int| 0 <= q < row.len() && row[q] == (order[i], order[j]);
                assert(s[s0.len() + q] == row[q]);
            }
        }
    }
}

/// Load-balancing channel changes, given the agents ranked from least to
/// most loaded (`order`) and which agents are overloaded (`heavy`). Additions:
/// among the first `max(n / 3, 1)` ranked agents, the unlinked pairs in rank
/// order, at most `max_suggestions` of them. Removals: the
/// channels between overloaded agents, found from the overloaded agents among
/// the last `n / 3` ranked, cut to `max_suggestions`. Fleets of fewer than
/// two agents get no changes.
pub fn balance_plan(graph: &FleetGraph, order: &Vec<usize>, heavy: &Vec<bool>, max_suggestions: usize) -> (r: (
    Vec<(usize, usize)>,
    Vec<(usize, usize)>,
))
    requires
        graph.wf(),
        order@.len() == graph.agents@.len(),
        heavy@.len() == graph.agents@.len(),
        forall|i: int| 0 <= i < order@.len() ==> #[trigger] order@[i] < graph.agents@.len(),
    ensures
        graph.agents@.len() < 2 ==> r.0@.len() == 0 && r.1@.len() == 0,
        r.0@.len() <= max_suggestions,
        r.1@.len() <= max_suggestions,
        graph.agents@.len() >= 2 ==> {
            let n = graph.agents@.len() as int;
            let low = if n / 3 > 1 { n / 3 } else { 1 };
            let cap = max_suggestions as int;
            let adds = light_pairs(graph, order@, low, low);
            let removes = heavy_pairs(graph, order@, heavy@, n - n / 3, n);
            &&& r.0@ == adds.take(if adds.len() < cap { adds.len() as int } else { cap })
            &&& r.1@ == removes.take(if removes.len() < max_suggestions { removes.len() as int } else { max_suggestions as int })
            &&& forall|k: int|
                0 <= k < r.0@.len() ==> {
                    let p = #[trigger] r.0@[k];
                    &&& !graph.linked(p.0 as int, p.1 as int)
                    &&& order@.take(low).contains(p.0)
                    &&& order@.take(low).contains(p.1)
                }
            &&& r.0@.len() < max_suggestions ==> forall|i: int, j: int|
                0 <= i < j < low && !graph.linked(order@[i] as int, order@[j] as int) ==> #[trigger] r.0@.contains(
                    (order@[i], order@[j]),
                )
            &&& forall|k: int|
                0 <= k < r.1@.len() ==> {
                    let p = #[trigger] r.1@[k];
                    &&& p.0 < p.1
                    &&& heavy@[p.0 as int]
                    &&& heavy@[p.1 as int]
                    &&& graph.linked(p.0 as int, p.1 as int)
                }
            &&& r.1@.len() < max_suggestions ==> forall|i: int, j: int|
                n - n / 3 <= i < n && 0 <= j < n && j != order@[i] && heavy@[order@[i] as int] && heavy@[j]
                    && graph.linked(order@[i] as int, j) ==> #[trigger] r.1@.contains(
                    ordered_pair(#[trigger] order@[i] as int, j),
                )
        },
{
    let n = graph.node_count();
    let mut adds: Vec<(usize, usize)> = Vec::new();
    let mut removes: Vec<(usize, usize)> = Vec::new();
    if n < 2 {
        return (adds, removes);
    }
    let adj = graph.link_matrix();
    let ghost g = grid(adj@);
    let low: usize = if n / 3 > 1 { n / 3 } else { 1 };
    let ghost cap: int = max_suggestions as int;
    let ghost all_adds = light_pairs(graph, order@, low as int, low as int);
    proof {
        lemma_light_pairs_prefix(graph, order@, low as int, low as int);
    }
    let mut done = max_suggestions == 0;
    let mut i: usize = 0;
    while i < low && !done
        invariant
            n == adj@.len(),
            n == graph.agents@.len(),
            g == grid(adj@),
            g == graph.adjacency(),
            order@.len() == n,
            forall|x: int| 0 <= x < order@.len() ==> #[trigger] order@[x] < n,
            low <= n,
            i <= low,
            all_adds == light_pairs(graph, order@, low as int, low as int),
            forall|e: int| 0 <= e <= low ==> light_pairs(graph, order@, low as int, e).is_prefix_of(all_adds),
            cap == max_suggestions as int,
            !done ==> adds@ == light_pairs(graph, order@, low as int, i as int) && adds@.len() < cap,
            done ==> adds@ == all_adds.take(cap) && all_adds.len() >= cap,
        decreases low - i,
    {
        let mut j: usize = i + 1;
        while j < low && !done
            invariant
                n == adj@.len(),
                n == graph.agents@.len(),
                g == grid(adj@),
                g == graph.adjacency(),
                order@.len() == n,
                forall|x: int| 0 <= x < order@.len() ==> #[trigger] order@[x] < n,
                low <= n,
                i < low,
                i + 1 <= j <= low,
                all_adds == light_pairs(graph, order@, low as int, low as int),
                forall|e: int| 0 <= e <= low ==> light_pairs(graph, order@, low as int, e).is_prefix_of(all_adds),
                cap == max_suggestions as int,
                !done ==> adds@ == light_pairs(graph, order@, low as int, i as int) + light_row(
                    graph,
                    order@,
                    i as int,
                    j as int,
                ) && adds@.len() < cap,
                done ==> adds@ == all_adds.take(cap) && all_adds.len() >= cap,
            decreases low - j,
        {
            let a = order[i];
            let b = order[j];
            let ghost before = adds@;
            proof {
                lemma_light_row_prefix(graph, order@, i as int, (j + 1) as int, low as int);
                assert(light_pairs(graph, order@, low as int, i + 1) == light_pairs(graph, order@, low as int, i as int)
                    + light_row(graph, order@, i as int, low as int));
            }
            if !has_link(&adj, a, b) {
                adds.push((a, b));
                if adds.len() >= max_suggestions {
                    done = true;
                }
                proof {
                    assert(adds@ =~= light_pairs(graph, order@, low as int, i as int) + light_row(
                        graph,
                        order@,
                        i as int,
                        (j + 1) as int,
                    ));
                    if done {
                        let pre = light_pairs(graph, order@, low as int, i as int) + light_row(
                            graph,
                            order@,
                            i as int,
                            (j + 1) as int,
                        );
                        assert(pre.is_prefix_of(light_pairs(graph, order@, low as int, i + 1)));
                        assert(light_pairs(graph, order@, low as int, i + 1).is_prefix_of(all_adds));
                        assert(adds@.len() == cap);
                        assert(adds@ =~= all_adds.take(cap));
                    }
                }
            } else {
                proof {
                    assert(adds@ =~= light_pairs(graph, order@, low as int, i as int) + light_row(
                        graph,
                        order@,
                        i as int,
                        (j + 1) as int,
                    ));
                }
            }
            j = j + 1;
        }
        proof {
            if !done {
                assert(adds@ =~= light_pairs(graph, order@, low as int, i + 1));
            }
        }
        i = i + 1;
    }
    proof {
        if !done {
            assert(adds@ == all_adds);
            assert(adds@ =~= all_adds.take(all_adds.len() as int));
        }
    }
    let high_start: usize = n - n / 3;
    let ghost all_removes = heavy_pairs(graph, order@, heavy@, high_start as int, n as int);
    let mut i: usize = high_start;
    while i < n
        invariant
            n == adj@.len(),
            n == graph.agents@.len(),
            g == grid(adj@),
            g == graph.adjacency(),
            order@.len() == n,
            heavy@.len() == n,
            forall|x: int| 0 <= x < order@.len() ==> #[trigger] order@[x] < n,
            high_start <= i <= n,
            removes@ == heavy_pairs(graph, order@, heavy@, high_start as int, i as int),
        decreases n - i,
    {
        let a = order[i];
        if heavy[a] {
            let ghost base = removes@;
            let mut j: usize = 0;
            while j < n
                invariant
                    n == adj@.len(),
                    n == graph.agents@.len(),
                    g == grid(adj@),
                    g == graph.adjacency(),
                    heavy@.len() == n,
                    a < n,
                    j <= n,
                    removes@ == base + heavy_row(graph, heavy@, a as int, j as int),
                decreases n - j,
            {
                if a != j && has_link(&adj, a, j) && heavy[j] {
                    let lo = if a < j { a } else { j };
                    let hi = if a < j { j } else { a };
                    removes.push((lo, hi));
                }
                proof {
                    assert(removes@ =~= base + heavy_row(graph, heavy@, a as int, (j + 1) as int));
                }
                j = j + 1;
            }
        }
        proof {
            assert(removes@ =~= heavy_pairs(graph, order@, heavy@, high_start as int, (i + 1) as int));
        }
        i = i + 1;
    }
    let ghost full = removes@;
    if removes.len() > max_suggestions {
        removes.truncate(max_suggestions);
    }
    proof {
        assert(removes@ =~= full.take(if full.len() < max_suggestions { full.len() as int } else { max_suggestions as int }));
        lemma_light_pairs_law(graph, order@, low as int, low as int);
        lemma_heavy_pairs_law(graph, order@, heavy@, high_start as int, n as int);
        assert forall|k: int| 0 <= k < adds@.len() implies {
            let p = #[trigger] adds@[k];
            &&& !graph.linked(p.0 as int, p.1 as int)
            &&& order@.take(low as int).contains(p.0)
            &&& order@.take(low as int).contains(p.1)
        } by {
            assert(adds@[k] == all_adds[k]);
            let (i, j) = choose|i: int, j: int|
                0 <= i < j < low && i < low && #[trigger] all_adds[k] == (#[trigger] order@[i], #[trigger] order@[j])
                    && !graph.linked(order@[i] as int, order@[j] as int);
            assert(order@.take(low as int)[i] == order@[i]);
            assert(order@.take(low as int)[j] == order@[j]);
        }
        if adds@.len() < max_suggestions {
            assert(adds@ =~= all_adds);
        }
        assert forall|k: int| 0 <= k < removes@.len() implies {
            let p = #[trigger] removes@[k];
            &&& p.0 < p.1
            &&& heavy@[p.0 as int]
            &&& heavy@[p.1 as int]
            &&& graph.linked(p.0 as int, p.1 as int)
        } by {
            assert(removes@[k] == full[k]);
        }
        if removes@.len() < max_suggestions {
            assert(removes@ =~= full);
        }
    }
    (adds, removes)
}

/// Scanning a row further only appends pairs.
proof fn lemma_light_row_prefix(graph: &FleetGraph, order: Seq<usize>, i: int, a: int, b: int)
    requires
        a <= b,
    ensures
        light_row(graph, order, i, a).is_prefix_of(light_row(graph, order, i, b)),
    decreases b - a,
{
    if a < b {
        lemma_light_row_prefix(graph, order, i, a, b - 1);
        let x = light_row(graph, order, i, a);
        let y = light_row(graph, order, i, b - 1);
        let z = light_row(graph, order, i, b);
        assert forall|k: int| 0 <= k < x.len() implies #[trigger] x[k] == z[k] by {
            assert(x[k] == y[k]);
            if b > i + 1 {
                assert(z[k] == y[k]);
            }
        }
    }
}

/// Scanning more rows only appends pairs.
proof fn lemma_light_pairs_prefix(graph: &FleetGraph, order: Seq<usize>, low: int, b: int)
    ensures
        forall|e: int| 0 <= e <= b ==> #[trigger] light_pairs(graph, order, low, e).is_prefix_of(
            light_pairs(graph, order, low, b),
        ),
    decreases b,
{
    if b > 0 {
        lemma_light_pairs_prefix(graph, order, low, b - 1);
        assert forall|e: int| 0 <= e <= b implies #[trigger] light_pairs(graph, order, low, e).is_prefix_of(
            light_pairs(graph, order, low, b),
        ) by {
            if e < b {
                let x = light_pairs(graph, order, low, e);
                let y = light_pairs(graph, order, low, b - 1);
                let z = light_pairs(graph, order, low, b);
                assert(x.is_prefix_of(y));
                assert forall|k: int| 0 <= k < x.len() implies #[trigger] x[k] == z[k] by {
                    assert(x[k] == y[k]);
                    assert(z[k] == y[k]);
                }
            }
        }
    }
}

/// The distinct pairs of `items` in increasing lexicographic order, at most
/// `max` of them (the smallest ones).
pub fn sorted_unique_prefix(items: &Vec<(usize, usize)>, max: usize) -> (r: Vec<(usize, usize)>)
    ensures
        pairs_sorted(r@),
        r@.len() <= max,
        forall|k: int| 0 <= k < r@.len() ==> items@.contains(#[trigger] r@[k]),
        forall|c: (usize, usize)|
            items@.contains(c) && !r@.contains(c) ==> r@.len() == max && forall|k: int|
                0 <= k < r@.len() ==> pair_less(#[trigger] r@[k], c),
{
    let mut all: Vec<(usize, usize)> = Vec::new();
    let mut k: usize = 0;
    while k < items.len()
        invariant
            k <= items@.len(),
            pairs_sorted(all@),
            forall|x: (usize, usize)| all@.contains(x) <==> exists|q: int| 0 <= q < k && items@[q] == x,
        decreases items@.len() - k,
    {
        let ghost before = all@;
        insert_pair(&mut all, items[k]);
        proof {
            assert forall|x: (usize, usize)| all@.contains(x) <==> exists|q: int| 0 <= q < k + 1 && items@[q] == x by {
                if all@.contains(x) && x != items@[k as int] {
                    assert(before.contains(x));
                }
                if exists|q: int| 0 <= q < k + 1 && items@[q] == x {
                    let q = choose|q: int| 0 <= q < k + 1 && items@[q] == x;
                    if q < k {
                        assert(before.contains(x));
                    }
                }
            }
        }
        k = k + 1;
    }
    let ghost full = all@;
    if all.len() > max {
        all.truncate(max);
    }
    proof {
        assert forall|x: (usize, usize)| items@.contains(x) implies full.contains(x) by {
            let q = choose|q: int| 0 <= q < items@.len() && items@[q] == x;
        }
        assert forall|k: int| 0 <= k < all@.len() implies items@.contains(#[trigger] all@[k]) by {
            assert(all@[k] == full[k]);
            assert(full.contains(full[k]));
            let q = choose|q: int| 0 <= q < items@.len() && items@[q] == full[k];
        }
        assert forall|c: (usize, usize)|
            items@.contains(c) && !all@.contains(c) implies all@.len() == max && forall|k: int|
                0 <= k < all@.len() ==> pair_less(#[trigger] all@[k], c) by {
            assert(full.contains(c));
            let q = choose|q: int| 0 <= q < full.len() && full[q] == c;
            if q < all@.len() {
                assert(all@[q] == c);
            }
            assert forall|k: int| 0 <= k < all@.len() implies pair_less(#[trigger] all@[k], c) by {
                assert(all@[k] == full[k]);
            }
        }
    }
    all
}

/// Inserts `x` into a lexicographically increasing vector of pairs, keeping it increasing.
fn insert_pair(v: &mut Vec<(usize, usize)>, x: (usize, usize))
    requires
        pairs_sorted(old(v)@),
    ensures
        pairs_sorted(final(v)@),
        forall|y: (usize, usize)| #[trigger] final(v)@.contains(y) <==> (old(v)@.contains(y) || y == x),
{
    let mut p: usize = 0;
    while p < v.len() && (v[p].0 < x.0 || (v[p].0 == x.0 && v[p].1 < x.1))
        invariant
            p <= v@.len(),
            v@ == old(v)@,
            pairs_sorted(v@),
            forall|a: int| 0 <= a < p ==> pair_less(#[trigger] v@[a], x),
        decreases v@.len() - p,
    {
        p = p + 1;
    }
    if p < v.len() && v[p].0 == x.0 && v[p].1 == x.1 {
        assert(v@[p as int] == x);
        return;
    }
    let ghost before = v@;
    v.insert(p, x);
    assert forall|y: (usize, usize)| #[trigger] v@.contains(y) <==> (old(v)@.contains(y) || y == x) by {
        if v@.contains(y) {
            let a = choose|a: int| 0 <= a < v@.len() && v@[a] == y;
            if a < p {
                assert(before[a] == y);
            } else if a > p {
                assert(before[a - 1] == y);
            }
        }
        if before.contains(y) {
            let a = choose|a: int| 0 <= a < before.len() && before[a] == y;
            if a < p {
                assert(v@[a] == y);
            } else {
                assert(v@[a + 1] == y);
            }
        }
        if y == x {
            assert(v@[p as int] == x);
        }
    }
    assert forall|a: int, b: int| 0 <= a < b < v@.len() implies pair_less(#[trigger] v@[a], #[trigger] v@[b]) by {
        if b < p {
            assert(v@[a] == before[a] && v@[b] == before[b]);
        } else if b == p {
            assert(v@[a] == before[a]);
        } else if a == p {
            assert(v@[b] == before[b - 1]);
            assert(!pair_less(before[p as int], x));
            if b - 1 > p {
                assert(pair_less(before[p as int], before[b - 1]));
            }
        } else if a < p {
            assert(v@[a] == before[a] && v@[b] == before[b - 1]);
        } else {
            assert(v@[a] == before[a - 1] && v@[b] == before[b - 1]);
        }
    }
}

} // verus!
