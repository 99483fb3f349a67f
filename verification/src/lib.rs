//! # spectral-fleet — structural analysis of agent fleets
//!
//! A fleet of agents is a graph: agents are nodes, communication channels are
//! edges. This crate holds the verified structural core of spectral fleet
//! analysis: graph construction, connectivity and components, hop distances,
//! cut agents and bridge channels, reorganization candidates and the graph
//! edits that track a fleet over time. Weights are carried as the bit
//! patterns of `f64` values; the spectral (floating-point) computations run
//! on top of these structures.

use vstd::prelude::*;

pub mod paths;
pub mod fleet_graph;
pub mod generators;
pub mod clustering;
pub mod embedding;
pub mod bottleneck;
pub mod reorganization;
pub mod dynamics;
pub mod shapes;

use crate::paths::{all_reachable, distances_from, grid, is_distance, lemma_reachable_symmetric, lemma_reachable_trans, reachable, well_shaped, within};

verus! {

/// A weighted undirected graph on agents `0..n`, stored as adjacency lists of
/// `(neighbor, weight bits)` entries; every edge appears in the lists of both
/// endpoints.
#[derive(Debug, Clone)]
pub struct Graph {
    pub n: usize,
    adj: Vec<Vec<(usize, u64)>>,
}

/// The number of entries in the lists `i < m`.
pub open spec fn entries(lists: Seq<Seq<(usize, u64)>>, m: int) -> nat
    decreases m,
{
    if m <= 0 {
        0
    } else {
        entries(lists, m - 1) + lists[m - 1].len()
    }
}

/// Pushing one entry onto list `i` adds one entry below every bound past `i`.
pub proof fn lemma_entries_push(lists: Seq<Seq<(usize, u64)>>, i: int, x: (usize, u64), m: int)
    requires
        0 <= i < lists.len(),
        m <= lists.len(),
    ensures
        entries(lists.update(i, lists[i].push(x)), m) == entries(lists, m) + if i < m {
            1nat
        } else {
            0nat
        },
    decreases m,
{
    if m > 0 {
        lemma_entries_push(lists, i, x, m - 1);
    }
}

/// The entries of adjacency list `row` name `j`.
pub open spec fn lists_neighbor(row: Seq<(usize, u64)>, j: int) -> bool {
    exists|k: int| 0 <= k < row.len() && #[trigger] row[k].0 == j
}

impl Graph {
    /// The number of agents.
    pub closed spec fn size(&self) -> nat {
        self.n as nat
    }

    /// The adjacency lists, as plain values.
    pub closed spec fn lists(&self) -> Seq<Seq<(usize, u64)>> {
        self.adj@.map_values(|r: Vec<(usize, u64)>| r@)
    }

    /// One list per agent, every neighbor an agent, every edge listed at both ends.
    pub closed spec fn wf(&self) -> bool {
        &&& self.lists().len() == self.n
        &&& forall|i: int, k: int|
            0 <= i < self.n && 0 <= k < self.lists()[i].len() ==> (#[trigger] self.lists()[i][k]).0 < self.n
        &&& forall|i: int, k: int|
            0 <= i < self.n && 0 <= k < self.lists()[i].len() ==> lists_neighbor(
                self.lists()[#[trigger] self.lists()[i][k].0 as int],
                i,
            )
    }

    /// The link matrix: `i` and `j` are linked when `j` is in `i`'s list.
    pub closed spec fn links(&self) -> Seq<Seq<bool>> {
        Seq::new(self.n as nat, |i: int| Seq::new(self.n as nat, |j: int| lists_neighbor(self.lists()[i], j)))
    }

    /// What the link matrix holds: one row of `size()` entries per agent,
    /// entry `[i][j]` set exactly when `j` appears in list `i`; a well-formed
    /// graph has one list per agent.
    pub proof fn lemma_links(&self)
        ensures
            self.links().len() == self.size(),
            forall|i: int| 0 <= i < self.size() ==> (#[trigger] self.links()[i]).len() == self.size(),
            forall|i: int, j: int|
                0 <= i < self.size() && 0 <= j < self.size() ==> #[trigger] self.links()[i][j] == lists_neighbor(
                    self.lists()[i],
                    j,
                ),
            self.wf() ==> self.lists().len() == self.size(),
            self.wf() ==> well_shaped(self.links()),
    {
        if self.wf() {
            let n = self.n as int;
            let l = self.links();
            assert forall|a: int, b: int| 0 <= a < n && 0 <= b < n implies #[trigger] l[a][b] == l[b][a] by {
                if lists_neighbor(self.lists()[a], b) {
                    let q = choose|q: int| 0 <= q < self.lists()[a].len() && #[trigger] self.lists()[a][q].0 == b;
                    assert(lists_neighbor(self.lists()[self.lists()[a][q].0 as int], a));
                }
                if lists_neighbor(self.lists()[b], a) {
                    let q = choose|q: int| 0 <= q < self.lists()[b].len() && #[trigger] self.lists()[b][q].0 == a;
                    assert(lists_neighbor(self.lists()[self.lists()[b][q].0 as int], b));
                }
            }
        }
    }

    /// The number of list entries in the lists `i < m`.
    pub closed spec fn entries_below(&self, m: int) -> nat {
        entries(self.lists(), m)
    }

    /// A graph on `n` agents with no edges.
    pub fn new(n: usize) -> (g: Self)
        ensures
            g.size() == n,
            g.wf(),
            forall|i: int| 0 <= i < n ==> #[trigger] g.lists()[i].len() == 0,
            g.entries_below(n as int) == 0,
    {
        let mut adj: Vec<Vec<(usize, u64)>> = Vec::new();
        let mut i: usize = 0;
        while i < n
            invariant
                i <= n,
                adj@.len() == i,
                forall|a: int| 0 <= a < i ==> (#[trigger] adj@[a])@.len() == 0,
            decreases n - i,
        {
            adj.push(Vec::new());
            i = i + 1;
        }
        let g = Graph { n, adj };
        assert forall|a: int| 0 <= a < n implies g.lists()[a].len() == 0 by {
            assert(g.lists()[a] == adj@[a]@);
        }
        proof {
            lemma_entries_zero(&g, n as int);
        }
        g
    }

    /// The adjacency lists.
    pub fn adjacency_lists(&self) -> (r: &Vec<Vec<(usize, u64)>>)
        ensures
            r@.map_values(|r: Vec<(usize, u64)>| r@) == self.lists(),
    {
        &self.adj
    }

    /// Adds an undirected edge of weight bits `w` between `i` and `j`:
    /// `(j, w)` joins `i`'s list, then `(i, w)` joins `j`'s list.
    pub fn add_edge(&mut self, i: usize, j: usize, w: u64)
        requires
            old(self).wf(),
            i < old(self).size(),
            j < old(self).size(),
        ensures
            final(self).wf(),
            final(self).size() == old(self).size(),
            final(self).entries_below(final(self).size() as int) == old(self).entries_below(old(self).size() as int) + 2,
            i != j ==> final(self).lists() == old(self).lists().update(i as int, old(self).lists()[i as int].push(
                (j, w),
            )).update(j as int, old(self).lists()[j as int].push((i, w))),
            i == j ==> final(self).lists() == old(self).lists().update(i as int, old(self).lists()[i as int].push(
                (j, w),
            ).push((i, w))),
    {
        let ghost l0 = self.lists();
        let mut row: Vec<(usize, u64)> = Vec::new();
        std::mem::swap(&mut row, &mut self.adj[i]);
        row.push((j, w));
        std::mem::swap(&mut row, &mut self.adj[i]);
        let ghost l1 = self.lists();
        assert(l1 =~= l0.update(i as int, l0[i as int].push((j, w))));
        let mut row2: Vec<(usize, u64)> = Vec::new();
        std::mem::swap(&mut row2, &mut self.adj[j]);
        row2.push((i, w));
        std::mem::swap(&mut row2, &mut self.adj[j]);
        let ghost l2 = self.lists();
        assert(l2 =~= l1.update(j as int, l1[j as int].push((i, w))));
        proof {
            let n = self.n as int;
            lemma_entries_push(l0, i as int, (j, w), n);
            lemma_entries_push(l1, j as int, (i, w), n);
            assert forall|a: int, k: int| 0 <= a < n && 0 <= k < l2[a].len() implies (#[trigger] l2[a][k]).0 < n by {
                if a != i && a != j {
                    assert(l2[a][k] == l0[a][k]);
                } else if k < l0[a].len() {
                    assert(l2[a][k] == l0[a][k]);
                }
            }
            assert forall|a: int, k: int| 0 <= a < n && 0 <= k < l2[a].len() implies lists_neighbor(
                l2[#[trigger] l2[a][k].0 as int],
                a,
            ) by {
                let b = l2[a][k].0 as int;
                // Old entries keep their partner entries; the two new entries partner each other.
                if k < l0[a].len() && l2[a][k] == l0[a][k] {
                    assert(lists_neighbor(l0[b], a));
                    let q = choose|q: int| 0 <= q < l0[b].len() && #[trigger] l0[b][q].0 == a;
                    assert(l2[b][q] == l0[b][q]);
                } else if a == i && b == j {
                    if i != j {
                        assert(l2[j as int][l0[j as int].len() as int].0 == i);
                    } else {
                        assert(l2[i as int][l0[i as int].len() as int].0 == j);
                    }
                } else {
                    assert(a == j && b == i);
                    if i != j {
                        assert(l2[i as int][l0[i as int].len() as int].0 == j);
                    } else {
                        assert(l2[i as int][l0[i as int].len() as int].0 == j);
                    }
                }
            }
        }
    }

    /// The number of edges: half the number of list entries.
    pub fn edge_count(&self) -> (r: usize)
        requires
            self.wf(),
            self.entries_below(self.size() as int) <= usize::MAX,
        ensures
            r == self.entries_below(self.size() as int) / 2,
    {
        let mut total: usize = 0;
        let mut i: usize = 0;
        while i < self.n
            invariant
                self.wf(),
                i <= self.n,
                total == self.entries_below(i as int),
                self.entries_below(self.n as int) <= usize::MAX,
            decreases self.n - i,
        {
            proof {
                lemma_entries_mono(self.lists(), (i + 1) as int, self.n as int);
            }
            assert(self.lists()[i as int] == self.adj@[i as int]@);
            total = total + self.adj[i].len();
            i = i + 1;
        }
        total / 2
    }

    /// Check if connected: every agent reaches every other one along listed
    /// edges. The graph on no agents counts as connected.
    pub fn is_connected(&self) -> (r: bool)
        requires
            self.wf(),
        ensures
            r == all_reachable(self.links()),
    {
        let n = self.n;
        if n == 0 {
            return true;
        }
        let m = self.link_matrix();
        let ghost g = grid(m@);
        let dist = distances_from(&m, 0);
        let mut j: usize = 0;
        while j < n
            invariant
                n == m@.len(),
                g == grid(m@),
                g == self.links(),
                well_shaped(g),
                dist@.len() == n,
                0 < n,
                j <= n,
                forall|t: int|
                    0 <= t < n ==> match #[trigger] dist@[t] {
                        Some(d) => is_distance(g, 0, t, d as nat) && d < n,
                        None => !reachable(g, 0, t),
                    },
                forall|t: int| 0 <= t < j ==> (#[trigger] dist@[t]) is Some,
            decreases n - j,
        {
            if dist[j].is_none() {
                return false;
            }
            j = j + 1;
        }
        proof {
            assert forall|s: int, t: int| 0 <= s < n && 0 <= t < n implies #[trigger] reachable(g, s, t) by {
                assert(within(g, 0, s, dist@[s].unwrap() as nat));
                assert(within(g, 0, t, dist@[t].unwrap() as nat));
                lemma_reachable_symmetric(g, 0, s);
                lemma_reachable_trans(g, s, 0, t);
            }
        }
        true
    }

    /// The link matrix built from the adjacency lists.
    fn link_matrix(&self) -> (m: Vec<Vec<bool>>)
        requires
            self.wf(),
        ensures
            m@.len() == self.n,
            grid(m@) == self.links(),
            well_shaped(grid(m@)),
    {
        let n = self.n;
        let mut m: Vec<Vec<bool>> = Vec::new();
        let mut i: usize = 0;
        while i < n
            invariant
                self.wf(),
                n == self.n,
                i <= n,
                m@.len() == i,
                forall|a: int| 0 <= a < i ==> (#[trigger] m@[a])@ == self.links()[a],
            decreases n - i,
        {
            assert(self.lists()[i as int] == self.adj@[i as int]@);
            let mut row: Vec<bool> = Vec::new();
            let mut j: usize = 0;
            while j < n
                invariant
                    n == self.n,
                    j <= n,
                    row@.len() == j,
                    forall|b: int| 0 <= b < j ==> (#[trigger] row@[b]) == false,
                decreases n - j,
            {
                row.push(false);
                j = j + 1;
            }
            let mut k: usize = 0;
            let len = self.adj[i].len();
            while k < len
                invariant
                    self.wf(),
                    n == self.n,
                    i < n,
                    len == self.lists()[i as int].len(),
                    self.lists()[i as int] == self.adj@[i as int]@,
                    k <= len,
                    row@.len() == n,
                    forall|b: int| 0 <= b < n ==> (#[trigger] row@[b] <==> exists|q: int|
                        0 <= q < k && #[trigger] self.lists()[i as int][q].0 == b),
                decreases len - k,
            {
                let (nb, _) = self.adj[i][k];
                assert(self.lists()[i as int][k as int].0 == nb);
                let ghost before = row@;
                row.set(nb, true);
                assert forall|b: int| 0 <= b < n implies (#[trigger] row@[b] <==> exists|q: int|
                    0 <= q < k + 1 && #[trigger] self.lists()[i as int][q].0 == b) by {
                    if b != nb && row@[b] {
                        assert(before[b]);
                    }
                    if exists|q: int| 0 <= q < k + 1 && #[trigger] self.lists()[i as int][q].0 == b {
                        let q = choose|q: int| 0 <= q < k + 1 && #[trigger] self.lists()[i as int][q].0 == b;
                        if q < k {
                            assert(before[b]);
                        }
                    }
                }
                k = k + 1;
            }
            assert(row@ =~= self.links()[i as int]);
            m.push(row);
            i = i + 1;
        }
        assert(grid(m@) =~= self.links());
        proof {
            let g = grid(m@);
            assert forall|a: int, b: int| 0 <= a < n && 0 <= b < n implies #[trigger] g[a][b] == g[b][a] by {
                if lists_neighbor(self.lists()[a], b) {
                    let q = choose|q: int| 0 <= q < self.lists()[a].len() && #[trigger] self.lists()[a][q].0 == b;
                    assert(lists_neighbor(self.lists()[self.lists()[a][q].0 as int], a));
                }
                if lists_neighbor(self.lists()[b], a) {
                    let q = choose|q: int| 0 <= q < self.lists()[b].len() && #[trigger] self.lists()[b][q].0 == a;
                    assert(lists_neighbor(self.lists()[self.lists()[b][q].0 as int], b));
                }
            }
        }
        m
    }
}

/// A graph whose lists are all empty has no entries below any bound.
proof fn lemma_entries_zero(g: &Graph, m: int)
    requires
        forall|i: int| 0 <= i < g.size() ==> #[trigger] g.lists()[i].len() == 0,
        m <= g.size(),
    ensures
        entries(g.lists(), m) == 0,
    decreases m,
{
    if m > 0 {
        lemma_entries_zero(g, m - 1);
    }
}

/// Counting the entries of more lists never gives fewer entries.
proof fn lemma_entries_mono(lists: Seq<Seq<(usize, u64)>>, a: int, b: int)
    requires
        a <= b,
    ensures
        entries(lists, a) <= entries(lists, b),
    decreases b - a,
{
    if a < b {
        lemma_entries_mono(lists, a, b - 1);
    }
}

} // verus!
