//! The structural side of clustering fleet agents: grouping agents by their
//! cluster ids, finding each cluster's boundary agents, and turning clusters
//! back into per-agent ids. The cluster ids themselves come from spectral
//! embeddings, which are floating-point.

use vstd::prelude::*;
use crate::fleet_graph::{strictly_sorted, FleetGraph};

verus! {

/// Agent `a` shares a live channel with some agent outside `members`.
pub open spec fn on_boundary(graph: &FleetGraph, members: Seq<usize>, a: int) -> bool {
    exists|b: int| 0 <= b < graph.agents@.len() && !members.contains(b as usize) && #[trigger] graph.linked(a, b)
}

/// The agents of `s` that lie on the boundary of `members`, in order.
pub open spec fn boundary_of(graph: &FleetGraph, members: Seq<usize>, s: Seq<usize>) -> Seq<usize>
    decreases s.len(),
{
    if s.len() == 0 {
        Seq::empty()
    } else {
        boundary_of(graph, members, s.drop_last()) + if on_boundary(graph, members, s.last() as int) {
            seq![s.last()]
        } else {
            Seq::empty()
        }
    }
}

/// The id of the last cluster that lists agent `i`, or 0 when none does.
pub open spec fn last_cluster(clusters: Seq<Seq<usize>>, i: int) -> int
    decreases clusters.len(),
{
    if clusters.len() == 0 {
        0
    } else if clusters.last().contains(i as usize) {
        clusters.len() - 1
    } else {
        last_cluster(clusters.drop_last(), i)
    }
}

/// The boundary agents of `s` are exactly the agents of `s` that share a live
/// channel with an agent outside `members`, in their order in `s`.
pub proof fn lemma_boundary_law(graph: &FleetGraph, members: Seq<usize>, s: Seq<usize>)
    ensures
        boundary_of(graph, members, s) == s.filter(|a: usize| on_boundary(graph, members, a as int)),
    decreases s.len(),
{
    reveal(Seq::filter);
    if s.len() > 0 {
        lemma_boundary_law(graph, members, s.drop_last());
    }
}

/// The cluster id given to agent `i`: when some cluster lists `i`, it is the
/// index of a cluster that lists `i` and no later cluster lists `i`;
/// otherwise it is 0.
pub proof fn lemma_last_cluster_law(clusters: Seq<Seq<usize>>, i: int)
    requires
        0 <= i <= usize::MAX,
    ensures
        (exists|c: int| 0 <= c < clusters.len() && #[trigger] clusters[c].contains(i as usize)) ==> {
            let c = last_cluster(clusters, i);
            &&& 0 <= c < clusters.len()
            &&& clusters[c].contains(i as usize)
            &&& forall|d: int| c < d < clusters.len() ==> !#[trigger] clusters[d].contains(i as usize)
        },
        !(exists|c: int| 0 <= c < clusters.len() && #[trigger] clusters[c].contains(i as usize)) ==> last_cluster(
            clusters,
            i,
        ) == 0,
    decreases clusters.len(),
{
    if clusters.len() > 0 {
        let init = clusters.drop_last();
        lemma_last_cluster_law(init, i);
        if !clusters.last().contains(i as usize) {
            if exists|c: int| 0 <= c < clusters.len() && #[trigger] clusters[c].contains(i as usize) {
                let c = choose|c: int| 0 <= c < clusters.len() && #[trigger] clusters[c].contains(i as usize);
                assert(c < init.len());
                assert(init[c] == clusters[c]);
            } else {
                assert forall|c: int| 0 <= c < init.len() implies !#[trigger] init[c].contains(i as usize) by {
                    assert(init[c] == clusters[c]);
                }
            }
            assert forall|c: int| 0 <= c < init.len() implies #[trigger] init[c] == clusters[c] by {}
            if exists|c: int| 0 <= c < clusters.len() && #[trigger] clusters[c].contains(i as usize) {
                let c = last_cluster(clusters, i);
                assert(c == last_cluster(init, i));
                assert forall|d: int| c < d < clusters.len() implies !#[trigger] clusters[d].contains(i as usize) by {
                    if d < init.len() {
                        assert(init[d] == clusters[d]);
                    }
                }
            }
        }
    }
}

/// `bucket` lists, in increasing order, the agents whose cluster id is `c`.
pub open spec fn is_bucket(assignments: Seq<usize>, c: int, bucket: Seq<usize>) -> bool {
    &&& strictly_sorted(bucket)
    &&& forall|i: usize| bucket.contains(i) <==> i < assignments.len() && assignments[i as int] == c
}

/// Groups agents by cluster id: bucket `c` lists, in increasing order, the
/// agents `i` with `assignments[i] == c`.
pub fn cluster_members(assignments: &Vec<usize>, k: usize) -> (buckets: Vec<Vec<usize>>)
    requires
        forall|i: int| 0 <= i < assignments@.len() ==> #[trigger] assignments@[i] < k,
    ensures
        buckets@.len() == k,
        forall|c: int| 0 <= c < k ==> is_bucket(assignments@, c, #[trigger] buckets@[c]@),
{
    let n = assignments.len();
    let mut buckets: Vec<Vec<usize>> = Vec::new();
    let mut c: usize = 0;
    while c < k
        invariant
            c <= k,
            n == assignments@.len(),
            buckets@.len() == c,
            forall|d: int| 0 <= d < c ==> is_bucket(assignments@, d, #[trigger] buckets@[d]@),
        decreases k - c,
    {
        let mut bucket: Vec<usize> = Vec::new();
        let mut i: usize = 0;
        while i < n
            invariant
                i <= n,
                n == assignments@.len(),
                strictly_sorted(bucket@),
                forall|x: int| 0 <= x < bucket@.len() ==> #[trigger] bucket@[x] < i,
                forall|j: usize| bucket@.contains(j) <==> j < i && assignments@[j as int] == c,
            decreases n - i,
        {
            if assignments[i] == c {
                let ghost before = bucket@;
                bucket.push(i);
                proof {
                    assert forall|a: int, b: int| 0 <= a < b < bucket@.len() implies #[trigger] bucket@[a]
                        < #[trigger] bucket@[b] by {
                        assert(bucket@[a] == before[a]);
                        if b < before.len() {
                            assert(bucket@[b] == before[b]);
                        }
                    }
                    assert forall|j: usize| bucket@.contains(j) <==> j < i + 1 && assignments@[j as int] == c by {
                        if bucket@.contains(j) && j != i {
                            let x = choose|x: int| 0 <= x < bucket@.len() && bucket@[x] == j;
                            assert(before[x] == j);
                        }
                        if j < i && assignments@[j as int] == c {
                            assert(before.contains(j));
                            let x = choose|x: int| 0 <= x < before.len() && before[x] == j;
                            assert(bucket@[x] == j);
                        }
                        if j == i {
                            assert(bucket@[bucket@.len() - 1] == i);
                        }
                    }
                }
            }
            i = i + 1;
        }
        let ghost old_buckets = buckets@;
        buckets.push(bucket);
        proof {
            assert forall|d: int| 0 <= d < c + 1 implies is_bucket(assignments@, d, #[trigger] buckets@[d]@) by {
                if d == c {
                    assert(buckets@[d] == bucket);
                } else {
                    assert(buckets@[d] == old_buckets[d]);
                }
            }
        }
        c = c + 1;
    }
    buckets
}

/// The members of a cluster that share a live channel with an agent outside
/// it (its boundary), in member order.
pub fn separator(graph: &FleetGraph, members: &Vec<usize>) -> (sep: Vec<usize>)
    requires
        graph.wf(),
        forall|i: int| 0 <= i < members@.len() ==> #[trigger] members@[i] < graph.agents@.len(),
    ensures
        sep@ == boundary_of(graph, members@, members@),
        sep@ == members@.filter(|a: usize| on_boundary(graph, members@, a as int)),
{
    let n = graph.node_count();
    let adj = graph.link_matrix();
    let mut inside: Vec<bool> = Vec::new();
    let mut i: usize = 0;
    while i < n
        invariant
            i <= n,
            inside@.len() == i,
            forall|b: int| 0 <= b < i ==> !#[trigger] inside@[b],
        decreases n - i,
    {
        inside.push(false);
        i = i + 1;
    }
    let mut m: usize = 0;
    while m < members.len()
        invariant
            m <= members@.len(),
            n == graph.agents@.len(),
            inside@.len() == n,
            forall|x: int| 0 <= x < members@.len() ==> #[trigger] members@[x] < n,
            forall|b: int| 0 <= b < n ==> (#[trigger] inside@[b] <==> exists|x: int| 0 <= x < m && members@[x] == b),
        decreases members@.len() - m,
    {
        let ghost before = inside@;
        inside.set(members[m], true);
        proof {
            assert forall|b: int| 0 <= b < n implies (#[trigger] inside@[b] <==> exists|x: int|
                0 <= x < m + 1 && members@[x] == b) by {
                if inside@[b] && b != members@[m as int] {
                    assert(before[b]);
                }
                if exists|x: int| 0 <= x < m + 1 && members@[x] == b {
                    let x = choose|x: int| 0 <= x < m + 1 && members@[x] == b;
                    if x < m {
                        assert(before[b]);
                    }
                }
            }
        }
        m = m + 1;
    }
    let mut sep: Vec<usize> = Vec::new();
    let mut k: usize = 0;
    while k < members.len()
        invariant
            k <= members@.len(),
            n == graph.agents@.len(),
            n == adj@.len(),
            crate::paths::grid(adj@) == graph.adjacency(),
            inside@.len() == n,
            forall|x: int| 0 <= x < members@.len() ==> #[trigger] members@[x] < n,
            forall|b: int| 0 <= b < n ==> (#[trigger] inside@[b] <==> members@.contains(b as usize)),
            sep@ == boundary_of(graph, members@, members@.take(k as int)),
        decreases members@.len() - k,
    {
        let a = members[k];
        let mut outside_link = false;
        let mut b: usize = 0;
        while b < n
            invariant
                b <= n,
                a < n,
                n == graph.agents@.len(),
                n == adj@.len(),
                crate::paths::grid(adj@) == graph.adjacency(),
                inside@.len() == n,
                forall|x: int| 0 <= x < n ==> (#[trigger] inside@[x] <==> members@.contains(x as usize)),
                outside_link <==> exists|x: int|
                    0 <= x < b && !members@.contains(x as usize) && #[trigger] graph.linked(a as int, x),
            decreases n - b,
        {
            if !inside[b] && crate::paths::has_link(&adj, a, b) {
                outside_link = true;
            }
            b = b + 1;
        }
        proof {
            assert(members@.take(k + 1).drop_last() =~= members@.take(k as int));
            assert(members@.take(k + 1).last() == a);
        }
        if outside_link {
            sep.push(a);
        }
        proof {
            assert(sep@ =~= boundary_of(graph, members@, members@.take(k + 1)));
        }
        k = k + 1;
    }
    assert(members@.take(members@.len() as int) =~= members@);
    proof {
        lemma_boundary_law(graph, members@, members@);
    }
    sep
}

/// Per-agent cluster ids for `n` agents: the index of the last cluster that
/// lists the agent, or 0 for agents no cluster lists.
pub fn assignments_from_clusters(n: usize, clusters: &Vec<Vec<usize>>) -> (ids: Vec<usize>)
    requires
        forall|c: int, j: int|
            0 <= c < clusters@.len() && 0 <= j < clusters@[c]@.len() ==> #[trigger] clusters@[c]@[j] < n,
    ensures
        ids@.len() == n,
        forall|i: int| 0 <= i < n ==> #[trigger] ids@[i] == last_cluster(clusters@.map_values(|c: Vec<usize>| c@), i),
        forall|i: int|
            0 <= i < n && (exists|c: int| 0 <= c < clusters@.len() && #[trigger] clusters@[c]@.contains(i as usize))
                ==> {
                &&& (#[trigger] ids@[i]) < clusters@.len()
                &&& clusters@[ids@[i] as int]@.contains(i as usize)
                &&& forall|d: int| ids@[i] < d < clusters@.len() ==> !#[trigger] clusters@[d]@.contains(i as usize)
            },
        forall|i: int|
            0 <= i < n && !(exists|c: int| 0 <= c < clusters@.len() && #[trigger] clusters@[c]@.contains(i as usize))
                ==> #[trigger] ids@[i] == 0,
{
    let ghost cs = clusters@.map_values(|c: Vec<usize>| c@);
    let mut ids: Vec<usize> = Vec::new();
    let mut i: usize = 0;
    while i < n
        invariant
            i <= n,
            ids@.len() == i,
            forall|x: int| 0 <= x < i ==> #[trigger] ids@[x] == 0,
        decreases n - i,
    {
        ids.push(0);
        i = i + 1;
    }
    let mut c: usize = 0;
    while c < clusters.len()
        invariant
            c <= clusters@.len(),
            cs == clusters@.map_values(|c: Vec<usize>| c@),
            ids@.len() == n,
            forall|d: int, j: int|
                0 <= d < clusters@.len() && 0 <= j < clusters@[d]@.len() ==> #[trigger] clusters@[d]@[j] < n,
            forall|x: int| 0 <= x < n ==> #[trigger] ids@[x] == last_cluster(cs.take(c as int), x),
        decreases clusters@.len() - c,
    {
        let cluster = &clusters[c];
        let ghost before = ids@;
        let mut j: usize = 0;
        while j < cluster.len()
            invariant
                j <= cluster@.len(),
                cluster@ == clusters@[c as int]@,
                c < clusters@.len(),
                ids@.len() == n,
                forall|q: int| 0 <= q < cluster@.len() ==> #[trigger] cluster@[q] < n,
                forall|x: int|
                    0 <= x < n ==> #[trigger] ids@[x] == if exists|q: int| 0 <= q < j && cluster@[q] == x {
                        c as int
                    } else {
                        before[x] as int
                    },
            decreases cluster@.len() - j,
        {
            assert(cluster@[j as int] < n);
            let ghost mid = ids@;
            ids.set(cluster[j], c);
            proof {
                assert forall|x: int| 0 <= x < n implies #[trigger] ids@[x] == if exists|q: int|
                    0 <= q < j + 1 && cluster@[q] == x {
                    c as int
                } else {
                    before[x] as int
                } by {
                    if x == cluster@[j as int] {
                        assert(cluster@[j as int] == x);
                    } else {
                        assert(ids@[x] == mid[x]);
                        if exists|q: int| 0 <= q < j + 1 && cluster@[q] == x {
                            let q = choose|q: int| 0 <= q < j + 1 && cluster@[q] == x;
                            assert(q < j);
                        }
                    }
                }
            }
            j = j + 1;
        }
        proof {
            assert(cs.take(c + 1).drop_last() =~= cs.take(c as int));
            assert(cs.take(c + 1).last() == cluster@);
            assert forall|x: int| 0 <= x < n implies #[trigger] ids@[x] == last_cluster(cs.take(c + 1), x) by {
                if cluster@.contains(x as usize) {
                    let q = choose|q: int| 0 <= q < cluster@.len() && cluster@[q] == x as usize;
                    assert(cluster@[q] == x);
                } else {
                    if exists|q: int| 0 <= q < cluster@.len() && cluster@[q] == x {
                        let q = choose|q: int| 0 <= q < cluster@.len() && cluster@[q] == x;
                        assert(cluster@.contains(x as usize));
                    }
                }
            }
        }
        c = c + 1;
    }
    assert(cs.take(clusters@.len() as int) =~= cs);
    proof {
        assert forall|c: int| 0 <= c < cs.len() implies #[trigger] cs[c] == clusters@[c]@ by {}
        assert forall|i: int| 0 <= i < n implies {
            &&& (exists|c: int| 0 <= c < clusters@.len() && #[trigger] clusters@[c]@.contains(i as usize)) ==> {
                &&& (#[trigger] ids@[i]) < clusters@.len()
                &&& clusters@[ids@[i] as int]@.contains(i as usize)
                &&& forall|d: int| ids@[i] < d < clusters@.len() ==> !#[trigger] clusters@[d]@.contains(i as usize)
            }
            &&& !(exists|c: int| 0 <= c < clusters@.len() && #[trigger] clusters@[c]@.contains(i as usize)) ==> ids@[i]
                == 0
        } by {
            lemma_last_cluster_law(cs, i);
            if exists|c: int| 0 <= c < clusters@.len() && #[trigger] clusters@[c]@.contains(i as usize) {
                let c = choose|c: int| 0 <= c < clusters@.len() && #[trigger] clusters@[c]@.contains(i as usize);
                assert(cs[c].contains(i as usize));
                assert forall|d: int| ids@[i] < d < clusters@.len() implies !#[trigger] clusters@[d]@.contains(i as usize) by {
                    assert(cs[d] == clusters@[d]@);
                }
            } else {
                assert forall|c: int| 0 <= c < cs.len() implies !#[trigger] cs[c].contains(i as usize) by {
                    assert(cs[c] == clusters@[c]@);
                }
            }
        }
    }
    ids
}

} // verus!
