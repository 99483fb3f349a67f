//! Hop-count reachability over a boolean link matrix.
//!
//! Every structural question the library answers (connectivity, components,
//! shortest hop distances, cut agents, bridge channels) reduces to walks in an
//! undirected link matrix `adj`, where `adj[i][j]` says that agents `i` and `j`
//! share a live channel. This module defines walks of bounded length as a
//! recursive predicate, proves the algebra of walks, and implements a
//! level-by-level breadth-first search whose distances are proved exact.

use vstd::prelude::*;

verus! {

/// The matrix view of a vector of rows.
pub open spec fn grid(m: Seq<Vec<bool>>) -> Seq<Seq<bool>> {
    Seq::new(m.len(), |i: int| m[i]@)
}

/// Every row has one entry per agent.
pub open spec fn is_square(adj: Seq<Seq<bool>>) -> bool {
    forall|i: int| 0 <= i < adj.len() ==> #[trigger] adj[i].len() == adj.len()
}

/// Links go both ways.
pub open spec fn is_symmetric(adj: Seq<Seq<bool>>) -> bool {
    forall|i: int, j: int|
        0 <= i < adj.len() && 0 <= j < adj.len() ==> #[trigger] adj[i][j] == adj[j][i]
}

/// A square, symmetric link matrix: an undirected graph on `adj.len()` agents.
pub open spec fn well_shaped(adj: Seq<Seq<bool>>) -> bool {
    is_square(adj) && is_symmetric(adj)
}

/// Agents `i` and `j` share a link.
pub open spec fn link(adj: Seq<Seq<bool>>, i: int, j: int) -> bool {
    0 <= i < adj.len() && 0 <= j < adj.len() && adj[i][j]
}

/// Consecutive agents `p[i]` and `p[i + 1]` share a link.
pub open spec fn hop(adj: Seq<Seq<bool>>, p: Seq<int>, i: int) -> bool {
    link(adj, p[i], p[i + 1])
}

/// `p` is a walk: a non-empty sequence of agents, each linked to the next.
pub open spec fn is_walk(adj: Seq<Seq<bool>>, p: Seq<int>) -> bool {
    &&& p.len() > 0
    &&& forall|i: int| 0 <= i < p.len() ==> 0 <= #[trigger] p[i] < adj.len()
    &&& forall|i: int| 0 <= i < p.len() - 1 ==> #[trigger] hop(adj, p, i)
}

/// `p` is a walk from `s` to `t`.
pub open spec fn walk_between(adj: Seq<Seq<bool>>, p: Seq<int>, s: int, t: int) -> bool {
    is_walk(adj, p) && p[0] == s && p[p.len() - 1] == t
}

/// `t` can be reached from `s` by a walk of at most `k` links.
pub open spec fn within(adj: Seq<Seq<bool>>, s: int, t: int, k: nat) -> bool {
    exists|p: Seq<int>| #[trigger] walk_between(adj, p, s, t) && p.len() <= k + 1
}

/// `t` can be reached from `s` by some walk.
pub open spec fn reachable(adj: Seq<Seq<bool>>, s: int, t: int) -> bool {
    exists|k: nat| #[trigger] within(adj, s, t, k)
}

/// `d` is the least number of links on a walk from `s` to `t`.
pub open spec fn is_distance(adj: Seq<Seq<bool>>, s: int, t: int, d: nat) -> bool {
    &&& within(adj, s, t, d)
    &&& forall|k: nat| k < d ==> !#[trigger] within(adj, s, t, k)
}

/// The hop distance from `s` to `t`, meaningful when `t` is reachable from `s`.
pub open spec fn distance(adj: Seq<Seq<bool>>, s: int, t: int) -> nat {
    choose|d: nat| is_distance(adj, s, t, d)
}

/// Distances are unique.
pub proof fn lemma_distance_unique(adj: Seq<Seq<bool>>, s: int, t: int, d: nat)
    requires
        is_distance(adj, s, t, d),
    ensures
        distance(adj, s, t) == d,
{
    let e = distance(adj, s, t);
    assert(is_distance(adj, s, t, e));
    if e < d {
        assert(!within(adj, s, t, e));
    }
    if d < e {
        assert(!within(adj, s, t, d));
    }
}

/// Every agent of the graph can reach every other one.
pub open spec fn all_reachable(adj: Seq<Seq<bool>>) -> bool {
    forall|s: int, t: int|
        0 <= s < adj.len() && 0 <= t < adj.len() ==> #[trigger] reachable(adj, s, t)
}

/// The graph with agent `v` cut off: every link touching `v` is dropped.
pub open spec fn without_agent(adj: Seq<Seq<bool>>, v: int) -> Seq<Seq<bool>> {
    Seq::new(adj.len(), |i: int| Seq::new(adj[i].len(), |j: int| adj[i][j] && i != v && j != v))
}

/// The graph with the link between `a` and `b` dropped (in both directions).
pub open spec fn without_link(adj: Seq<Seq<bool>>, a: int, b: int) -> Seq<Seq<bool>> {
    Seq::new(
        adj.len(),
        |i: int|
            Seq::new(
                adj[i].len(),
                |j: int| adj[i][j] && !((i == a && j == b) || (i == b && j == a)),
            ),
    )
}

/// The number of agents whose distance is already known.
pub open spec fn settled(d: Seq<Option<usize>>) -> nat
    decreases d.len(),
{
    if d.len() == 0 {
        0
    } else {
        settled(d.drop_last()) + if d.last() is Some {
            1nat
        } else {
            0nat
        }
    }
}

/// At most every agent is settled.
pub proof fn lemma_settled_bound(d: Seq<Option<usize>>)
    ensures
        settled(d) <= d.len(),
    decreases d.len(),
{
    if d.len() > 0 {
        lemma_settled_bound(d.drop_last());
    }
}

/// Settling an unsettled agent settles exactly one more agent.
pub proof fn lemma_settled_update(d: Seq<Option<usize>>, j: int, x: usize)
    requires
        0 <= j < d.len(),
        d[j] is None,
    ensures
        settled(d.update(j, Some(x))) == settled(d) + 1,
    decreases d.len(),
{
    let e = d.update(j, Some(x));
    if j == d.len() - 1 {
        assert(e.drop_last() =~= d.drop_last());
    } else {
        assert(e.drop_last() =~= d.drop_last().update(j, Some(x)));
        lemma_settled_update(d.drop_last(), j, x);
    }
}

/// Every agent reaches itself in zero hops.
pub proof fn lemma_within_zero(adj: Seq<Seq<bool>>, s: int)
    requires
        0 <= s < adj.len(),
    ensures
        within(adj, s, s, 0),
{
    let p = seq![s];
    assert(walk_between(adj, p, s, s));
}

/// Walks only start and end at agents of the graph.
pub proof fn lemma_within_bounds(adj: Seq<Seq<bool>>, s: int, t: int, k: nat)
    requires
        within(adj, s, t, k),
    ensures
        0 <= s < adj.len(),
        0 <= t < adj.len(),
{
    let p = choose|p: Seq<int>| #[trigger] walk_between(adj, p, s, t) && p.len() <= k + 1;
    assert(0 <= p[0] < adj.len());
    assert(0 <= p[p.len() - 1] < adj.len());
}

/// A walk of zero hops ends where it starts.
pub proof fn lemma_within_zero_same(adj: Seq<Seq<bool>>, s: int, t: int)
    requires
        within(adj, s, t, 0),
    ensures
        s == t,
{
    let p = choose|p: Seq<int>| #[trigger] walk_between(adj, p, s, t) && p.len() <= 1;
}

/// What is reachable in `j` hops is reachable in any `k >= j` hops.
pub proof fn lemma_within_mono(adj: Seq<Seq<bool>>, s: int, t: int, j: nat, k: nat)
    requires
        within(adj, s, t, j),
        j <= k,
    ensures
        within(adj, s, t, k),
{
    let p = choose|p: Seq<int>| #[trigger] walk_between(adj, p, s, t) && p.len() <= j + 1;
    assert(walk_between(adj, p, s, t) && p.len() <= k + 1);
}

/// A walk of at most `k` hops extended by one link has at most `k + 1` hops.
pub proof fn lemma_within_step(adj: Seq<Seq<bool>>, s: int, u: int, t: int, k: nat)
    requires
        within(adj, s, u, k),
        link(adj, u, t),
    ensures
        within(adj, s, t, k + 1),
{
    let p = choose|p: Seq<int>| #[trigger] walk_between(adj, p, s, u) && p.len() <= k + 1;
    let q = p.push(t);
    assert forall|i: int| 0 <= i < q.len() - 1 implies #[trigger] hop(adj, q, i) by {
        if i < p.len() - 1 {
            assert(hop(adj, p, i));
        }
    }
    assert(walk_between(adj, q, s, t));
}

/// The last link of a walk that needs all of its `k` links.
pub proof fn lemma_within_split(adj: Seq<Seq<bool>>, s: int, t: int, k: nat) -> (u: int)
    requires
        within(adj, s, t, k),
        k > 0,
        !within(adj, s, t, (k - 1) as nat),
    ensures
        within(adj, s, u, (k - 1) as nat),
        link(adj, u, t),
{
    let p = choose|p: Seq<int>| #[trigger] walk_between(adj, p, s, t) && p.len() <= k + 1;
    if p.len() <= k {
        assert(walk_between(adj, p, s, t) && p.len() <= (k - 1) as nat + 1);
        assert(false);
    }
    let q = p.drop_last();
    assert forall|i: int| 0 <= i < q.len() - 1 implies #[trigger] hop(adj, q, i) by {
        assert(hop(adj, p, i));
    }
    assert(walk_between(adj, q, s, q[q.len() - 1]));
    assert(hop(adj, p, p.len() - 2));
    q[q.len() - 1]
}

/// Two walks joined end to start make a walk with the hops of both.
pub proof fn lemma_within_concat(adj: Seq<Seq<bool>>, s: int, u: int, t: int, a: nat, b: nat)
    requires
        within(adj, s, u, a),
        within(adj, u, t, b),
    ensures
        within(adj, s, t, a + b),
{
    let p = choose|p: Seq<int>| #[trigger] walk_between(adj, p, s, u) && p.len() <= a + 1;
    let q = choose|q: Seq<int>| #[trigger] walk_between(adj, q, u, t) && q.len() <= b + 1;
    let r = p + q.drop_first();
    assert forall|i: int| 0 <= i < r.len() implies 0 <= #[trigger] r[i] < adj.len() by {
        if i < p.len() {
            assert(r[i] == p[i]);
        } else {
            assert(r[i] == q[i - p.len() + 1]);
        }
    }
    assert forall|i: int| 0 <= i < r.len() - 1 implies #[trigger] hop(adj, r, i) by {
        if i < p.len() - 1 {
            assert(hop(adj, p, i));
        } else if i == p.len() - 1 {
            if q.len() > 1 {
                assert(hop(adj, q, 0));
            }
        } else {
            assert(hop(adj, q, i - p.len() + 1));
        }
    }
    if q.len() == 1 {
        assert(r =~= p);
    }
    assert(walk_between(adj, r, s, t));
}

/// On undirected links, a walk can be taken backwards with the same hops.
pub proof fn lemma_within_symmetric(adj: Seq<Seq<bool>>, s: int, t: int, k: nat)
    requires
        is_symmetric(adj),
        within(adj, s, t, k),
    ensures
        within(adj, t, s, k),
{
    let p = choose|p: Seq<int>| #[trigger] walk_between(adj, p, s, t) && p.len() <= k + 1;
    let r = p.reverse();
    assert forall|i: int| 0 <= i < r.len() implies 0 <= #[trigger] r[i] < adj.len() by {
        assert(r[i] == p[p.len() - 1 - i]);
    }
    assert forall|i: int| 0 <= i < r.len() - 1 implies #[trigger] hop(adj, r, i) by {
        assert(hop(adj, p, p.len() - 2 - i));
    }
    assert(walk_between(adj, r, t, s));
}

/// On undirected links, reachability is symmetric.
pub proof fn lemma_reachable_symmetric(adj: Seq<Seq<bool>>, s: int, t: int)
    requires
        is_symmetric(adj),
        reachable(adj, s, t),
    ensures
        reachable(adj, t, s),
{
    let k = choose|k: nat| #[trigger] within(adj, s, t, k);
    lemma_within_symmetric(adj, s, t, k);
}

/// Reachability is transitive.
pub proof fn lemma_reachable_trans(adj: Seq<Seq<bool>>, s: int, u: int, t: int)
    requires
        reachable(adj, s, u),
        reachable(adj, u, t),
    ensures
        reachable(adj, s, t),
{
    let a = choose|k: nat| #[trigger] within(adj, s, u, k);
    let b = choose|k: nat| #[trigger] within(adj, u, t, k);
    lemma_within_concat(adj, s, u, t, a, b);
}

/// Once one more link reaches nothing new, longer walks reach nothing new either.
pub proof fn lemma_within_fixpoint(adj: Seq<Seq<bool>>, s: int, l: nat, k: nat, t: int)
    requires
        forall|x: int| #[trigger] within(adj, s, x, l + 1) ==> within(adj, s, x, l),
        within(adj, s, t, k),
    ensures
        within(adj, s, t, l),
    decreases k,
{
    if k <= l {
        lemma_within_mono(adj, s, t, k, l);
    } else if within(adj, s, t, (k - 1) as nat) {
        lemma_within_fixpoint(adj, s, l, (k - 1) as nat, t);
    } else {
        let u = lemma_within_split(adj, s, t, k);
        lemma_within_fixpoint(adj, s, l, (k - 1) as nat, u);
        lemma_within_step(adj, s, u, t, l);
    }
}


/// The number of agents marked in `s`.
pub open spec fn count_true(s: Seq<bool>) -> nat
    decreases s.len(),
{
    if s.len() == 0 {
        0
    } else {
        count_true(s.drop_last()) + if s.last() {
            1nat
        } else {
            0nat
        }
    }
}

/// At most every agent is marked.
pub proof fn lemma_count_true_bound(s: Seq<bool>)
    ensures
        count_true(s) <= s.len(),
    decreases s.len(),
{
    if s.len() > 0 {
        lemma_count_true_bound(s.drop_last());
    }
}

/// Marking an unmarked agent marks exactly one more agent.
pub proof fn lemma_count_true_update(s: Seq<bool>, j: int)
    requires
        0 <= j < s.len(),
        !s[j],
    ensures
        count_true(s.update(j, true)) == count_true(s) + 1,
    decreases s.len(),
{
    let e = s.update(j, true);
    if j == s.len() - 1 {
        assert(e.drop_last() =~= s.drop_last());
    } else {
        assert(e.drop_last() =~= s.drop_last().update(j, true));
        lemma_count_true_update(s.drop_last(), j);
    }
}

/// Every link leaving a marked agent ends at a marked agent.
pub open spec fn closed_under_links(adj: Seq<Seq<bool>>, marked: Seq<bool>) -> bool {
    forall|u: int, j: int| 0 <= u < adj.len() && marked[u] && #[trigger] link(adj, u, j) ==> marked[j]
}

/// Walks never leave a set of agents closed under links.
pub proof fn lemma_closed_reach(adj: Seq<Seq<bool>>, marked: Seq<bool>, s: int, t: int, k: nat)
    requires
        closed_under_links(adj, marked),
        marked[s],
        within(adj, s, t, k),
    ensures
        marked[t],
    decreases k,
{
    if k == 0 {
        lemma_within_zero_same(adj, s, t);
    } else if within(adj, s, t, (k - 1) as nat) {
        lemma_closed_reach(adj, marked, s, t, (k - 1) as nat);
    } else {
        let u = lemma_within_split(adj, s, t, k);
        lemma_closed_reach(adj, marked, s, u, (k - 1) as nat);
        lemma_within_bounds(adj, s, u, (k - 1) as nat);
    }
}

/// Reads one entry of a link matrix.
pub fn has_link(adj: &Vec<Vec<bool>>, i: usize, j: usize) -> (r: bool)
    requires
        is_square(grid(adj@)),
        i < adj@.len(),
        j < adj@.len(),
    ensures
        r == link(grid(adj@), i as int, j as int),
{
    assert(grid(adj@)[i as int] == adj@[i as int]@);
    adj[i][j]
}

/// Row `i` of the link matrix with some links dropped: those touching `v` when
/// `drop_agent` holds, otherwise the link between `a` and `b`.
fn filtered_row(adj: &Vec<Vec<bool>>, i: usize, v: usize, a: usize, b: usize, drop_agent: bool) -> (row: Vec<bool>)
    requires
        is_square(grid(adj@)),
        i < adj@.len(),
    ensures
        row@.len() == adj@.len(),
        forall|j: int|
            0 <= j < adj@.len() ==> #[trigger] row@[j] == if drop_agent {
                adj@[i as int]@[j] && i != v && j != v
            } else {
                adj@[i as int]@[j] && !((i == a && j == b) || (i == b && j == a))
            },
{
    let n = adj.len();
    assert(adj@[i as int]@.len() == n) by {
        assert(grid(adj@)[i as int] == adj@[i as int]@);
    }
    let mut row: Vec<bool> = Vec::new();
    let mut j: usize = 0;
    while j < n
        invariant
            n == adj@.len(),
            i < n,
            adj@[i as int]@.len() == n,
            j <= n,
            row@.len() == j,
            forall|jj: int|
                0 <= jj < j ==> #[trigger] row@[jj] == if drop_agent {
                    adj@[i as int]@[jj] && i != v && jj != v
                } else {
                    adj@[i as int]@[jj] && !((i == a && jj == b) || (i == b && jj == a))
                },
        decreases n - j,
    {
        let x = adj[i][j];
        let keep = if drop_agent {
            x && i != v && j != v
        } else {
            x && !((i == a && j == b) || (i == b && j == a))
        };
        row.push(keep);
        j = j + 1;
    }
    row
}

/// The link matrix with agent `v` cut off.
pub fn drop_agent(adj: &Vec<Vec<bool>>, v: usize) -> (m: Vec<Vec<bool>>)
    requires
        well_shaped(grid(adj@)),
    ensures
        m@.len() == adj@.len(),
        grid(m@) == without_agent(grid(adj@), v as int),
        well_shaped(grid(m@)),
{
    let n = adj.len();
    let mut m: Vec<Vec<bool>> = Vec::new();
    let mut i: usize = 0;
    while i < n
        invariant
            n == adj@.len(),
            well_shaped(grid(adj@)),
            i <= n,
            m@.len() == i,
            forall|r: int| 0 <= r < i ==> #[trigger] m@[r]@ == without_agent(grid(adj@), v as int)[r],
        decreases n - i,
    {
        let row = filtered_row(adj, i, v, 0, 0, true);
        assert(row@ =~= without_agent(grid(adj@), v as int)[i as int]) by {
            assert(grid(adj@)[i as int] == adj@[i as int]@);
        }
        m.push(row);
        i = i + 1;
    }
    assert(grid(m@) =~= without_agent(grid(adj@), v as int));
    m
}

/// The link matrix with the link between `a` and `b` dropped.
pub fn drop_link(adj: &Vec<Vec<bool>>, a: usize, b: usize) -> (m: Vec<Vec<bool>>)
    requires
        well_shaped(grid(adj@)),
    ensures
        m@.len() == adj@.len(),
        grid(m@) == without_link(grid(adj@), a as int, b as int),
        well_shaped(grid(m@)),
{
    let n = adj.len();
    let mut m: Vec<Vec<bool>> = Vec::new();
    let mut i: usize = 0;
    while i < n
        invariant
            n == adj@.len(),
            well_shaped(grid(adj@)),
            i <= n,
            m@.len() == i,
            forall|r: int| 0 <= r < i ==> #[trigger] m@[r]@ == without_link(grid(adj@), a as int, b as int)[r],
        decreases n - i,
    {
        let row = filtered_row(adj, i, 0, a, b, false);
        assert(row@ =~= without_link(grid(adj@), a as int, b as int)[i as int]) by {
            assert(grid(adj@)[i as int] == adj@[i as int]@);
        }
        m.push(row);
        i = i + 1;
    }
    assert(grid(m@) =~= without_link(grid(adj@), a as int, b as int));
    m
}

/// Breadth-first search from `s`, one level at a time: entry `t` of the result
/// is the hop distance from `s` to `t`, or `None` where `t` cannot be reached.
pub fn distances_from(adj: &Vec<Vec<bool>>, s: usize) -> (dist: Vec<Option<usize>>)
    requires
        is_square(grid(adj@)),
        s < adj@.len(),
    ensures
        dist@.len() == adj@.len(),
        forall|t: int|
            0 <= t < adj@.len() ==> match #[trigger] dist@[t] {
                Some(d) => is_distance(grid(adj@), s as int, t, d as nat) && d < adj@.len(),
                None => !reachable(grid(adj@), s as int, t),
            },
{
    let ghost g = grid(adj@);
    let n = adj.len();
    let mut dist: Vec<Option<usize>> = Vec::new();
    let mut i: usize = 0;
    while i < n
        invariant
            i <= n,
            dist@.len() == i,
            forall|t: int| 0 <= t < i ==> dist@[t] is None,
        decreases n - i,
    {
        dist.push(None);
        i = i + 1;
    }
    proof {
        assert(settled(dist@) == 0) by {
            lemma_settled_zero(dist@);
        }
        lemma_settled_update(dist@, s as int, 0);
    }
    dist.set(s, Some(0));
    proof {
        lemma_within_zero(g, s as int);
    }
    let mut frontier: Vec<usize> = Vec::new();
    frontier.push(s);
    let mut level: usize = 0;
    assert(frontier@[0] == s);
    assert forall|t: int| 0 <= t < n && dist@[t] == Some(0usize) implies #[trigger] frontier@.contains(t as usize) by {
        assert(frontier@[0] == t as usize);
    }
    while frontier.len() > 0
        invariant
            level > 0 || frontier@.len() > 0,
            g == grid(adj@),
            is_square(g),
            n == adj@.len(),
            s < n,
            dist@.len() == n,
            level <= settled(dist@),
            settled(dist@) <= n,
            frontier@.len() > 0 ==> level < settled(dist@),
            forall|t: int|
                0 <= t < n ==> match #[trigger] dist@[t] {
                    Some(d) => d <= level && is_distance(g, s as int, t, d as nat),
                    None => !within(g, s as int, t, level as nat),
                },
            forall|i: int| 0 <= i < frontier@.len() ==> #[trigger] frontier@[i] < n,
            forall|i: int| 0 <= i < frontier@.len() ==> dist@[#[trigger] frontier@[i] as int] == Some(level),
            forall|t: int| 0 <= t < n && dist@[t] == Some(level) ==> #[trigger] frontier@.contains(t as usize),
        decreases n - level,
    {
        let mut next: Vec<usize> = Vec::new();
        let ghost before = dist@;
        let mut fi: usize = 0;
        while fi < frontier.len()
            invariant
                g == grid(adj@),
                is_square(g),
                n == adj@.len(),
                s < n,
                dist@.len() == n,
                level < settled(before),
                settled(before) <= n,
                fi <= frontier@.len(),
                settled(dist@) == settled(before) + next@.len(),
                settled(dist@) <= n,
                before.len() == n,
                forall|t: int| 0 <= t < n && before[t] is Some ==> dist@[t] == before[t],
                forall|t: int|
                    0 <= t < n ==> match #[trigger] before[t] {
                        Some(d) => d <= level && is_distance(g, s as int, t, d as nat),
                        None => !within(g, s as int, t, level as nat),
                    },
                forall|t: int|
                    0 <= t < n ==> match #[trigger] dist@[t] {
                        Some(d) => d <= level + 1 && is_distance(g, s as int, t, d as nat),
                        None => !within(g, s as int, t, level as nat),
                    },
                forall|i: int| 0 <= i < frontier@.len() ==> #[trigger] frontier@[i] < n,
                forall|i: int|
                    0 <= i < frontier@.len() ==> before[#[trigger] frontier@[i] as int] == Some(level),
                forall|t: int|
                    0 <= t < n && before[t] == Some(level) ==> #[trigger] frontier@.contains(t as usize),
                forall|i: int| 0 <= i < next@.len() ==> #[trigger] next@[i] < n,
                forall|i: int| 0 <= i < next@.len() ==> dist@[#[trigger] next@[i] as int] == Some((level + 1) as usize),
                forall|t: int|
                    0 <= t < n && dist@[t] == Some((level + 1) as usize) ==> #[trigger] next@.contains(t as usize),
                forall|i: int, j: int|
                    0 <= i < fi && 0 <= j < n && #[trigger] link(g, frontier@[i] as int, j) ==> dist@[j] is Some,
            decreases frontier@.len() - fi,
        {
            let u = frontier[fi];
            let mut j: usize = 0;
            while j < n
                invariant
                    g == grid(adj@),
                    is_square(g),
                    n == adj@.len(),
                    s < n,
                    u < n,
                    dist@.len() == n,
                    level < settled(before),
                    before.len() == n,
                    fi < frontier@.len(),
                    u == frontier@[fi as int],
                    before[u as int] == Some(level),
                    j <= n,
                    settled(dist@) == settled(before) + next@.len(),
                    settled(dist@) <= n,
                    forall|t: int| 0 <= t < n && before[t] is Some ==> dist@[t] == before[t],
                    forall|t: int|
                        0 <= t < n ==> match #[trigger] before[t] {
                            Some(d) => d <= level && is_distance(g, s as int, t, d as nat),
                            None => !within(g, s as int, t, level as nat),
                        },
                    forall|t: int|
                        0 <= t < n ==> match #[trigger] dist@[t] {
                            Some(d) => d <= level + 1 && is_distance(g, s as int, t, d as nat),
                            None => !within(g, s as int, t, level as nat),
                        },
                    forall|i: int| 0 <= i < frontier@.len() ==> #[trigger] frontier@[i] < n,
                    forall|i: int|
                        0 <= i < frontier@.len() ==> before[#[trigger] frontier@[i] as int] == Some(level),
                    forall|i: int| 0 <= i < next@.len() ==> #[trigger] next@[i] < n,
                    forall|i: int|
                        0 <= i < next@.len() ==> dist@[#[trigger] next@[i] as int] == Some((level + 1) as usize),
                    forall|t: int|
                        0 <= t < n && dist@[t] == Some((level + 1) as usize) ==> #[trigger] next@.contains(t as usize),
                    forall|i: int, jj: int|
                        0 <= i < fi && 0 <= jj < n && #[trigger] link(g, frontier@[i] as int, jj) ==> dist@[jj] is Some,
                    forall|jj: int| 0 <= jj < j && link(g, u as int, jj) ==> (#[trigger] dist@[jj]) is Some,
                decreases n - j,
            {
                if has_link(adj, u, j) && dist[j].is_none() {
                    proof {
                        assert(is_distance(g, s as int, u as int, level as nat));
                        lemma_within_step(g, s as int, u as int, j as int, level as nat);
                        assert forall|k: nat| k < level + 1 implies !#[trigger] within(g, s as int, j as int, k) by {
                            if within(g, s as int, j as int, k) {
                                lemma_within_mono(g, s as int, j as int, k, level as nat);
                            }
                        }
                        lemma_settled_update(dist@, j as int, (level + 1) as usize);
                        lemma_settled_bound(dist@.update(j as int, Some((level + 1) as usize)));
                    }
                    let ghost old_next = next@;
                    let ghost old_dist = dist@;
                    assert forall|t: int|
                        0 <= t < n && old_dist[t] == Some((level + 1) as usize) implies old_next.contains(t as usize) by {}
                    dist.set(j, Some(level + 1));
                    next.push(j);
                    proof {
                        assert(next@[next@.len() - 1] == j);
                        assert forall|t: int|
                            0 <= t < n && dist@[t] == Some((level + 1) as usize) implies #[trigger] next@.contains(t as usize) by {
                            if t != j {
                                assert(old_dist[t] == dist@[t]);
                                assert(old_next.contains(t as usize));
                                let i = choose|i: int| 0 <= i < old_next.len() && old_next[i] == t as usize;
                                assert(next@[i] == t as usize);
                            }
                        }
                    }
                }
                j = j + 1;
            }
            fi = fi + 1;
        }
        proof {
            // Everything one link beyond the current level now has a distance.
            assert forall|t: int| 0 <= t < n && within(g, s as int, t, (level + 1) as nat) implies dist@[t] is Some by {
                if within(g, s as int, t, level as nat) {
                } else {
                    let u = lemma_within_split(g, s as int, t, (level + 1) as nat);
                    lemma_within_bounds(g, s as int, u, level as nat);
                    let du = before[u].unwrap();
                    if (du as int) < (level as int) {
                        lemma_within_step(g, s as int, u, t, du as nat);
                        lemma_within_mono(g, s as int, t, (du + 1) as nat, level as nat);
                    } else {
                        assert(frontier@.contains(u as usize));
                        let i = choose|i: int| 0 <= i < frontier@.len() && frontier@[i] == u as usize;
                        assert(link(g, frontier@[i] as int, t));
                    }
                }
            }
        }
        frontier = next;
        level = level + 1;
    }
    proof {
        // No agent sits at the last level: walks longer than `level - 1` reach nothing new.
        let l = (level - 1) as nat;
        assert forall|x: int| #[trigger] within(g, s as int, x, l + 1) implies within(g, s as int, x, l) by {
            lemma_within_bounds(g, s as int, x, l + 1);
            match dist@[x] {
                Some(d) => {
                    if d == level {
                        assert(frontier@.contains(x as usize));
                    }
                    lemma_within_mono(g, s as int, x, d as nat, l);
                },
                None => {},
            }
        }
        assert forall|t: int| 0 <= t < n && #[trigger] dist@[t] is Some implies dist@[t].unwrap() < n by {
            if dist@[t].unwrap() == level {
                assert(frontier@.contains(t as usize));
            }
        }
        assert forall|t: int| 0 <= t < n && #[trigger] dist@[t] is None implies !reachable(g, s as int, t) by {
            if reachable(g, s as int, t) {
                let k = choose|k: nat| #[trigger] within(g, s as int, t, k);
                lemma_within_fixpoint(g, s as int, l, k, t);
                lemma_within_mono(g, s as int, t, l, level as nat);
            }
        }
    }
    dist
}

/// No agent is settled before any distance is known.
pub proof fn lemma_settled_zero(d: Seq<Option<usize>>)
    requires
        forall|t: int| 0 <= t < d.len() ==> d[t] is None,
    ensures
        settled(d) == 0,
    decreases d.len(),
{
    if d.len() > 0 {
        lemma_settled_zero(d.drop_last());
    }
}

} // verus!
