//! Generated fleets: complete graphs, paths, cycles, stars, barbells, pairs
//! of cliques, seeded random graphs, and fleets built from a GitHub
//! organisation's repositories and dependencies. Each generator's contract
//! gives the exact agents and channels it produces.

use vstd::prelude::*;
use crate::fleet_graph::{AgentNode, CommEdge, FleetGraph, UNIT_BITS, ZERO_BITS};

verus! {

/// The decimal digit `d` as a character.
pub open spec fn digit_char(d: int) -> char {
    if d == 0 {
        '0'
    } else if d == 1 {
        '1'
    } else if d == 2 {
        '2'
    } else if d == 3 {
        '3'
    } else if d == 4 {
        '4'
    } else if d == 5 {
        '5'
    } else if d == 6 {
        '6'
    } else if d == 7 {
        '7'
    } else if d == 8 {
        '8'
    } else {
        '9'
    }
}

/// The decimal representation of `n`, without leading zeros.
pub open spec fn decimal(n: nat) -> Seq<char>
    decreases n,
{
    if n < 10 {
        seq![digit_char(n as int)]
    } else {
        decimal(n / 10) + seq![digit_char((n % 10) as int)]
    }
}

/// The number that the decimal digits `s` denote.
pub open spec fn digits_value(s: Seq<char>) -> int
    decreases s.len(),
{
    if s.len() == 0 {
        0
    } else {
        digits_value(s.drop_last()) * 10 + (s.last() as int - '0' as int)
    }
}

/// `decimal(n)` is a decimal numeral for `n`: a non-empty string of digits
/// without a leading zero (unless it is `0` itself) that denotes `n`.
pub proof fn lemma_decimal_law(n: nat)
    ensures
        decimal(n).len() > 0,
        forall|k: int| 0 <= k < decimal(n).len() ==> '0' <= #[trigger] decimal(n)[k] <= '9',
        decimal(n).len() > 1 ==> decimal(n)[0] != '0',
        digits_value(decimal(n)) == n,
    decreases n,
{
    if n >= 10 {
        let m = n / 10;
        lemma_decimal_law(m);
        let d = decimal(n);
        let p = decimal(m);
        assert(d == p + seq![digit_char((n % 10) as int)]);
        assert(d.drop_last() =~= p);
        assert forall|k: int| 0 <= k < d.len() implies '0' <= #[trigger] d[k] <= '9' by {
            if k < p.len() {
                assert(d[k] == p[k]);
            }
        }
        assert(d[0] == p[0]);
        if m >= 10 {
            lemma_decimal_law(m / 10);
        } else {
            assert(p[0] == digit_char(m as int));
            assert(m != 0);
        }
        lemma_digit_char((n % 10) as int);
        assert(digits_value(d) == digits_value(p) * 10 + (n % 10));
        assert(n == (n / 10) * 10 + n % 10) by (nonlinear_arith);
    } else {
        lemma_digit_char(n as int);
        assert(decimal(n).drop_last() =~= Seq::<char>::empty());
        assert(digits_value(decimal(n).drop_last()) == 0);
        assert(decimal(n).last() == digit_char(n as int));
    }
}

/// The digit character for `d` denotes `d`.
proof fn lemma_digit_char(d: int)
    requires
        0 <= d < 10,
    ensures
        digit_char(d) as int - '0' as int == d,
        '0' <= digit_char(d) <= '9',
        d != 0 ==> digit_char(d) != '0',
{
}

/// Distinct agents of a generated fleet get distinct names.
pub proof fn lemma_agent_labels_distinct(i: nat, j: nat)
    requires
        i != j,
    ensures
        agent_label(i) != agent_label(j),
{
    lemma_decimal_law(i);
    lemma_decimal_law(j);
    if agent_label(i) == agent_label(j) {
        assert(agent_label(i).skip(6) =~= decimal(i));
        assert(agent_label(j).skip(6) =~= decimal(j));
    }
}

/// The name given to agent `i` of a generated fleet: `agent-<i>`.
pub open spec fn agent_label(i: nat) -> Seq<char> {
    seq!['a', 'g', 'e', 'n', 't', '-'] + decimal(i)
}

/// The capability list of a generated agent: `["general"]`.
pub open spec fn general_capabilities(caps: Seq<String>) -> bool {
    caps.len() == 1 && caps[0]@ == seq!['g', 'e', 'n', 'e', 'r', 'a', 'l']
}

/// Agent `a` is generated agent number `i`: named `agent-<i>`, capable of
/// `general`, idle.
pub open spec fn is_generated_agent(a: AgentNode, i: nat) -> bool {
    &&& a.id@ == agent_label(i)
    &&& general_capabilities(a.capabilities@)
    &&& a.load_bits == ZERO_BITS
}

/// The channel `a -> b` with unit bandwidth and unit latency.
pub open spec fn unit_edge(a: int, b: int) -> CommEdge {
    CommEdge { from: a as usize, to: b as usize, bandwidth_bits: UNIT_BITS, latency_bits: UNIT_BITS }
}

/// Channels `i -> j` for `lo <= j < end`, `j != i`, in increasing `j`.
pub open spec fn clique_row(lo: int, i: int, end: int) -> Seq<CommEdge>
    decreases end - lo,
{
    if end <= lo {
        Seq::empty()
    } else {
        clique_row(lo, i, end - 1) + if end - 1 != i {
            seq![unit_edge(i, end - 1)]
        } else {
            Seq::empty()
        }
    }
}

/// All channels `i -> j` between distinct agents of `[lo, hi)` with
/// `lo <= i < end`, in lexicographic order of `(i, j)`.
pub open spec fn clique_edges(lo: int, hi: int, end: int) -> Seq<CommEdge>
    decreases end - lo,
{
    if end <= lo {
        Seq::empty()
    } else {
        clique_edges(lo, hi, end - 1) + clique_row(lo, end - 1, hi)
    }
}

/// The channels of a path over `m + 1` agents: `i -> i+1` then `i+1 -> i`, for `i < m`.
pub open spec fn path_edges(m: int) -> Seq<CommEdge>
    decreases m,
{
    if m <= 0 {
        Seq::empty()
    } else {
        path_edges(m - 1) + seq![unit_edge(m - 1, m), unit_edge(m, m - 1)]
    }
}

/// The channels of a star with hub 0 over `m` agents: `0 -> i` then `i -> 0`, for `1 <= i < m`.
pub open spec fn star_edges(m: int) -> Seq<CommEdge>
    decreases m,
{
    if m <= 1 {
        Seq::empty()
    } else {
        star_edges(m - 1) + seq![unit_edge(0, m - 1), unit_edge(m - 1, 0)]
    }
}

/// A single decimal digit as a string.
fn digit_str(d: usize) -> (r: &'static str)
    requires
        d < 10,
    ensures
        r@ == seq![digit_char(d as int)],
{
    if d == 0 {
        proof {
            reveal_strlit("0");
        }
        "0"
    } else if d == 1 {
        proof {
            reveal_strlit("1");
        }
        "1"
    } else if d == 2 {
        proof {
            reveal_strlit("2");
        }
        "2"
    } else if d == 3 {
        proof {
            reveal_strlit("3");
        }
        "3"
    } else if d == 4 {
        proof {
            reveal_strlit("4");
        }
        "4"
    } else if d == 5 {
        proof {
            reveal_strlit("5");
        }
        "5"
    } else if d == 6 {
        proof {
            reveal_strlit("6");
        }
        "6"
    } else if d == 7 {
        proof {
            reveal_strlit("7");
        }
        "7"
    } else if d == 8 {
        proof {
            reveal_strlit("8");
        }
        "8"
    } else {
        proof {
            reveal_strlit("9");
        }
        "9"
    }
}

/// Appends the decimal representation of `n`.
fn push_decimal(s: &mut String, n: usize)
    ensures
        final(s)@ == old(s)@ + decimal(n as nat),
    decreases n,
{
    if n >= 10 {
        push_decimal(s, n / 10);
    }
    s.append(digit_str(n % 10));
    proof {
        if n >= 10 {
            assert(old(s)@ + decimal((n / 10) as nat) + seq![digit_char((n % 10) as int)] =~= old(s)@ + decimal(
                n as nat,
            ));
        } else {
            assert(old(s)@ + seq![digit_char((n % 10) as int)] =~= old(s)@ + decimal(n as nat));
        }
    }
}

/// Generated agent number `i`.
fn generated_agent(i: usize) -> (a: AgentNode)
    ensures
        is_generated_agent(a, i as nat),
{
    let mut id = String::from_str("agent-");
    proof {
        reveal_strlit("agent-");
        assert(id@ =~= seq!['a', 'g', 'e', 'n', 't', '-']);
    }
    push_decimal(&mut id, i);
    let cap = String::from_str("general");
    proof {
        reveal_strlit("general");
        assert(cap@ =~= seq!['g', 'e', 'n', 'e', 'r', 'a', 'l']);
    }
    let mut caps: Vec<String> = Vec::new();
    caps.push(cap);
    assert(caps@[0] == cap);
    AgentNode::new(id, caps, ZERO_BITS)
}

/// One step of the linear congruential generator used to draw random graphs.
pub open spec fn lcg_step(x: u64) -> u64 {
    x.wrapping_mul(6364136223846793005u64).wrapping_add(1442695040888963407u64)
}

/// The channels drawn for row `i` over the targets `j < end`, starting from
/// generator state `rng`, and the generator state afterwards. Every target
/// `j != i` consumes one draw; when the draw's top 31 bits fall below
/// `threshold`, both unit channels `i -> j` and `j -> i` are added.
pub open spec fn random_row(threshold: u64, i: int, end: int, rng: u64) -> (Seq<CommEdge>, u64)
    decreases end,
{
    if end <= 0 {
        (Seq::empty(), rng)
    } else {
        let (e, r) = random_row(threshold, i, end - 1, rng);
        if end - 1 == i {
            (e, r)
        } else {
            let r2 = lcg_step(r);
            if (r2 >> 33u64) < threshold {
                (e + seq![unit_edge(i, end - 1), unit_edge(end - 1, i)], r2)
            } else {
                (e, r2)
            }
        }
    }
}

/// The channels drawn for the rows `i < end` of a fleet of `n` agents,
/// starting from `seed`, and the generator state afterwards.
pub open spec fn random_rows(n: int, threshold: u64, end: int, seed: u64) -> (Seq<CommEdge>, u64)
    decreases end,
{
    if end <= 0 {
        (Seq::empty(), seed)
    } else {
        let (e, r) = random_rows(n, threshold, end - 1, seed);
        let (e2, r2) = random_row(threshold, end - 1, n, r);
        (e + e2, r2)
    }
}

/// The generator state after `k` steps from `x`.
pub open spec fn lcg_iter(x: u64, k: nat) -> u64
    decreases k,
{
    if k == 0 {
        x
    } else {
        lcg_step(lcg_iter(x, (k - 1) as nat))
    }
}

/// Taking `a` steps and then `b` steps is taking `a + b` steps.
proof fn lemma_lcg_iter_add(x: u64, a: nat, b: nat)
    ensures
        lcg_iter(lcg_iter(x, a), b) == lcg_iter(x, a + b),
    decreases b,
{
    if b > 0 {
        lemma_lcg_iter_add(x, a, (b - 1) as nat);
    }
}

/// The position of target `j` among the targets `j != i` of row `i`.
pub open spec fn target_rank(i: int, j: int) -> int {
    if j < i {
        j
    } else {
        j - 1
    }
}

/// A draw in generator state `state` accepts a pair: its top 31 bits fall
/// below `threshold`.
pub open spec fn accepts(threshold: u64, state: u64) -> bool {
    (state >> 33u64) < threshold
}

/// Unit channels between agents of the fleet are equal exactly when their
/// ends are.
proof fn lemma_unit_edge_eq(a: int, b: int, c: int, d: int)
    requires
        0 <= a <= usize::MAX,
        0 <= b <= usize::MAX,
        0 <= c <= usize::MAX,
        0 <= d <= usize::MAX,
    ensures
        (unit_edge(a, b) == unit_edge(c, d)) == (a == c && b == d),
{
    if unit_edge(a, b) == unit_edge(c, d) {
        assert(unit_edge(a, b).from == unit_edge(c, d).from);
        assert(unit_edge(a, b).to == unit_edge(c, d).to);
    }
}

/// Row `i` over the targets `j < end` takes one generator step per target
/// other than `i`.
proof fn lemma_random_row_state(threshold: u64, i: int, end: int, rng: u64)
    requires
        0 <= i,
        0 <= end,
    ensures
        random_row(threshold, i, end, rng).1 == lcg_iter(rng, (if i < end { end - 1 } else { end }) as nat),
    decreases end,
{
    if end > 0 {
        lemma_random_row_state(threshold, i, end - 1, rng);
    }
}

/// Every channel row `i` adds touches agent `i`.
proof fn lemma_random_row_touches(threshold: u64, i: int, end: int, rng: u64)
    ensures
        forall|k: int|
            0 <= k < random_row(threshold, i, end, rng).0.len() ==> (#[trigger] random_row(threshold, i, end, rng).0[k]).from
                == i as usize || random_row(threshold, i, end, rng).0[k].to == i as usize,
    decreases end,
{
    if end > 0 {
        lemma_random_row_touches(threshold, i, end - 1, rng);
        let e = random_row(threshold, i, end - 1, rng).0;
        let row = random_row(threshold, i, end, rng).0;
        assert forall|k: int| 0 <= k < row.len() implies (#[trigger] row[k]).from == i as usize || row[k].to
            == i as usize by {
            if k < e.len() {
                assert(row[k] == e[k]);
            }
        }
    }
}

/// An element of a concatenation comes from one of its parts.
proof fn lemma_concat_contains<A>(a: Seq<A>, b: Seq<A>, x: A)
    ensures
        (a + b).contains(x) == (a.contains(x) || b.contains(x)),
{
    if (a + b).contains(x) {
        let k = choose|k: int| 0 <= k < (a + b).len() && (a + b)[k] == x;
        if k < a.len() {
            assert(a[k] == x);
        } else {
            assert(b[k - a.len()] == x);
        }
    }
    if a.contains(x) {
        let k = choose|k: int| 0 <= k < a.len() && a[k] == x;
        assert((a + b)[k] == x);
    }
    if b.contains(x) {
        let k = choose|k: int| 0 <= k < b.len() && b[k] == x;
        assert((a + b)[a.len() + k] == x);
    }
}

/// Row `i` over the targets below `end` holds `i -> j` and `j -> i`, for a
/// target `j < end` other than `i`, exactly when the draw for `j` (the step
/// numbered by `j`'s rank, counting from 1) accepts.
proof fn lemma_random_row_has_one(threshold: u64, i: int, end: int, rng: u64, j: int)
    requires
        0 <= i <= usize::MAX,
        0 <= j <= usize::MAX,
        0 <= end <= usize::MAX + 1,
        j != i,
    ensures
        j < end ==> (random_row(threshold, i, end, rng).0.contains(unit_edge(i, j)) <==> accepts(
            threshold,
            lcg_iter(rng, (target_rank(i, j) + 1) as nat),
        )),
        j < end ==> (random_row(threshold, i, end, rng).0.contains(unit_edge(j, i)) <==> accepts(
            threshold,
            lcg_iter(rng, (target_rank(i, j) + 1) as nat),
        )),
        j >= end ==> !random_row(threshold, i, end, rng).0.contains(unit_edge(i, j)),
        j >= end ==> !random_row(threshold, i, end, rng).0.contains(unit_edge(j, i)),
    decreases end,
{
    if end > 0 {
        lemma_random_row_has_one(threshold, i, end - 1, rng, j);
        lemma_random_row_state(threshold, i, end - 1, rng);
        let (e, r) = random_row(threshold, i, end - 1, rng);
        let row = random_row(threshold, i, end, rng).0;
        let x = end - 1;
        if x != i {
            let r2 = lcg_step(r);
            let added = if accepts(threshold, r2) { seq![unit_edge(i, x), unit_edge(x, i)] } else { Seq::empty() };
            assert(row == e + added);
            lemma_concat_contains(e, added, unit_edge(i, j));
            lemma_concat_contains(e, added, unit_edge(j, i));
            lemma_unit_edge_eq(i, j, i, x);
            lemma_unit_edge_eq(i, j, x, i);
            lemma_unit_edge_eq(j, i, i, x);
            lemma_unit_edge_eq(j, i, x, i);
            if accepts(threshold, r2) {
                assert(added[0] == unit_edge(i, x) && added[1] == unit_edge(x, i));
                if j == x {
                    assert(added.contains(unit_edge(i, j)));
                    assert(added.contains(unit_edge(j, i)));
                } else {
                    assert(!added.contains(unit_edge(i, j)));
                    assert(!added.contains(unit_edge(j, i)));
                }
            } else {
                assert(!added.contains(unit_edge(i, j)));
                assert(!added.contains(unit_edge(j, i)));
            }
            if j == x {
                assert(r2 == lcg_iter(rng, (target_rank(i, j) + 1) as nat));
            }
        } else {
            assert(row == e);
        }
    }
}

/// A seeded random fleet of `n` agents: the generator runs on across rows
/// without restarting, one step per ordered pair `(i, j)`, `i != j`, in
/// lexicographic order, so the rows `i < end` leave it `end * (n - 1)` steps
/// from the seed. Agents `i != j` share the unit channels `i -> j` and
/// `j -> i` exactly when the draw for pair `(i, j)` (step `i * (n - 1)` plus
/// the rank of `j`, counting from 1) or the draw for pair `(j, i)` accepts,
/// counting only the rows drawn so far.
#[verifier::rlimit(30)]
pub proof fn lemma_random_rows_law(n: int, threshold: u64, end: int, seed: u64)
    requires
        0 <= end <= n <= usize::MAX,
    ensures
        random_rows(n, threshold, end, seed).1 == lcg_iter(seed, (end * (n - 1)) as nat),
        forall|i: int, j: int|
            0 <= i < n && 0 <= j < n && i != j ==> (#[trigger] random_rows(n, threshold, end, seed).0.contains(
                unit_edge(i, j),
            ) <==> (i < end && accepts(threshold, lcg_iter(seed, (i * (n - 1) + target_rank(i, j) + 1) as nat)))
                || (j < end && accepts(threshold, lcg_iter(seed, (j * (n - 1) + target_rank(j, i) + 1) as nat)))),
    decreases end,
{
    if end > 0 {
        let r = end - 1;
        lemma_random_rows_law(n, threshold, r, seed);
        let (e, st) = random_rows(n, threshold, r, seed);
        assert(r * (n - 1) >= 0) by (nonlinear_arith)
            requires
                r >= 0,
                n >= 1,
        ;
        assert(end * (n - 1) == r * (n - 1) + (n - 1)) by (nonlinear_arith)
            requires
                r == end - 1,
        ;
        lemma_random_row_state(threshold, r, n, st);
        lemma_random_row_touches(threshold, r, n, st);
        let row = random_row(threshold, r, n, st).0;
        let all = random_rows(n, threshold, end, seed).0;
        assert(all == e + row);
        lemma_lcg_iter_add(seed, (r * (n - 1)) as nat, (n - 1) as nat);
        assert forall|i: int, j: int| 0 <= i < n && 0 <= j < n && i != j implies (#[trigger] all.contains(
            unit_edge(i, j),
        ) <==> (i < end && accepts(threshold, lcg_iter(seed, (i * (n - 1) + target_rank(i, j) + 1) as nat)))
            || (j < end && accepts(threshold, lcg_iter(seed, (j * (n - 1) + target_rank(j, i) + 1) as nat)))) by {
            let u = unit_edge(i, j);
            assert(i * (n - 1) >= 0 && j * (n - 1) >= 0) by (nonlinear_arith)
                requires
                    i >= 0,
                    j >= 0,
                    n >= 1,
            ;
            if i == r {
                lemma_lcg_iter_add(seed, (r * (n - 1)) as nat, (target_rank(r, j) + 1) as nat);
                lemma_random_row_has_one(threshold, r, n, st, j);
            }
            if j == r {
                lemma_lcg_iter_add(seed, (r * (n - 1)) as nat, (target_rank(r, i) + 1) as nat);
                lemma_random_row_has_one(threshold, r, n, st, i);
            }
            if all.contains(u) {
                let k = choose|k: int| 0 <= k < all.len() && all[k] == u;
                if k < e.len() {
                    assert(e[k] == all[k]);
                } else {
                    assert(row[k - e.len()] == all[k]);
                    assert(row.contains(u));
                    assert(row[k - e.len()].from == r || row[k - e.len()].to == r);
                }
            }
            if e.contains(u) {
                let k = choose|k: int| 0 <= k < e.len() && e[k] == u;
                assert(all[k] == e[k]);
            }
            if row.contains(u) {
                let k = choose|k: int| 0 <= k < row.len() && row[k] == u;
                assert(all[e.len() + k] == row[k]);
            }
        }
    }
}

/// The index of the last name in `names` equal to `name`.
pub open spec fn last_named(names: Seq<Seq<char>>, name: Seq<char>) -> Option<int>
    decreases names.len(),
{
    if names.len() == 0 {
        None
    } else if names.last() == name {
        Some(names.len() - 1)
    } else {
        last_named(names.drop_last(), name)
    }
}

/// The channels built from dependency records `(from, to, weight)`: each
/// record whose two names both denote repositories becomes a channel between
/// the last repositories of those names, with the record's weight as
/// bandwidth and unit latency; other records are skipped.
pub open spec fn dependency_edges(names: Seq<Seq<char>>, deps: Seq<(Seq<char>, Seq<char>, u64)>) -> Seq<CommEdge>
    decreases deps.len(),
{
    if deps.len() == 0 {
        Seq::empty()
    } else {
        let d = deps.last();
        dependency_edges(names, deps.drop_last()) + match (last_named(names, d.0), last_named(names, d.1)) {
            (Some(a), Some(b)) => seq![
                CommEdge { from: a as usize, to: b as usize, bandwidth_bits: d.2, latency_bits: UNIT_BITS },
            ],
            _ => Seq::empty(),
        }
    }
}

/// Both names of dependency record `d` denote repositories.
pub open spec fn names_known(names: Seq<Seq<char>>, d: (Seq<char>, Seq<char>, u64)) -> bool {
    last_named(names, d.0) is Some && last_named(names, d.1) is Some
}

/// The channel that dependency record `d` stands for: from the last
/// repository named `d.0` to the last one named `d.1`, weighted `d.2`.
pub open spec fn dependency_channel(names: Seq<Seq<char>>, d: (Seq<char>, Seq<char>, u64)) -> CommEdge {
    CommEdge {
        from: last_named(names, d.0).unwrap() as usize,
        to: last_named(names, d.1).unwrap() as usize,
        bandwidth_bits: d.2,
        latency_bits: UNIT_BITS,
    }
}

/// Each dependency record whose two names are known yields exactly one
/// channel, in record order, and no other record yields any: the channels are
/// the known records, each turned into its channel. In particular there are as
/// many channels as known records, duplicates included.
pub proof fn lemma_dependency_edges_law(names: Seq<Seq<char>>, deps: Seq<(Seq<char>, Seq<char>, u64)>)
    ensures
        dependency_edges(names, deps) == deps.filter(|d: (Seq<char>, Seq<char>, u64)| names_known(names, d)).map_values(
            |d: (Seq<char>, Seq<char>, u64)| dependency_channel(names, d),
        ),
        dependency_edges(names, deps).len() == deps.filter(
            |d: (Seq<char>, Seq<char>, u64)| names_known(names, d),
        ).len(),
    decreases deps.len(),
{
    reveal(Seq::filter);
    let known = |d: (Seq<char>, Seq<char>, u64)| names_known(names, d);
    let chan = |d: (Seq<char>, Seq<char>, u64)| dependency_channel(names, d);
    if deps.len() > 0 {
        let init = deps.drop_last();
        let d = deps.last();
        lemma_dependency_edges_law(names, init);
        let f0 = init.filter(known);
        assert(deps.filter(known) == if known(d) { f0.push(d) } else { f0 });
        if known(d) {
            assert(f0.push(d).map_values(chan) =~= f0.map_values(chan).push(chan(d)));
            assert(dependency_edges(names, deps) =~= dependency_edges(names, init) + seq![chan(d)]);
        } else {
            assert(dependency_edges(names, deps) =~= dependency_edges(names, init));
        }
    } else {
        assert(deps.filter(known).map_values(chan) =~= Seq::<CommEdge>::empty());
    }
}

/// `last_named` finds the last occurrence of `name`: the index of an entry
/// equal to `name` after which no entry is, or nothing when no entry is.
pub proof fn lemma_last_named_bound(names: Seq<Seq<char>>, name: Seq<char>)
    ensures
        last_named(names, name) matches Some(i) ==> {
            &&& 0 <= i < names.len()
            &&& names[i] == name
            &&& forall|j: int| i < j < names.len() ==> #[trigger] names[j] != name
        },
        last_named(names, name) is None ==> !names.contains(name),
    decreases names.len(),
{
    if names.len() > 0 {
        let init = names.drop_last();
        lemma_last_named_bound(init, name);
        if names.last() != name {
            assert forall|j: int| 0 <= j < init.len() implies #[trigger] init[j] == names[j] by {}
            if last_named(init, name) is Some {
                let i = last_named(init, name).unwrap();
                assert(names[i] == init[i]);
                assert forall|j: int| i < j < names.len() implies #[trigger] names[j] != name by {
                    if j < init.len() {
                        assert(init[j] == names[j]);
                    }
                }
            }
            if names.contains(name) {
                let j = choose|j: int| 0 <= j < names.len() && names[j] == name;
                assert(init.contains(name)) by {
                    assert(init[j] == name);
                }
            }
        }
    }
}

/// The names of a list of repositories.
pub open spec fn repo_names(repos: Seq<(String, Vec<String>)>) -> Seq<Seq<char>> {
    repos.map_values(|r: (String, Vec<String>)| r.0@)
}

/// The dependency records as plain values.
pub open spec fn dependency_view(deps: Seq<(String, String, u64)>) -> Seq<(Seq<char>, Seq<char>, u64)> {
    deps.map_values(|d: (String, String, u64)| (d.0@, d.1@, d.2))
}

/// The index of the last repository named `name`.
fn find_repo(repos: &Vec<(String, Vec<String>)>, name: &String) -> (r: Option<usize>)
    ensures
        match last_named(repo_names(repos@), name@) {
            Some(i) => r == Some(i as usize),
            None => r is None,
        },
{
    let ghost names = repo_names(repos@);
    let mut i = repos.len();
    assert(names.take(i as int) =~= names);
    while i > 0
        invariant
            i <= repos@.len(),
            names == repo_names(repos@),
            last_named(names, name@) == last_named(names.take(i as int), name@),
        decreases i,
    {
        let ghost pre = names.take(i as int);
        assert(pre.last() == repos@[i - 1].0@);
        if repos[i - 1].0 == *name {
            return Some(i - 1);
        }
        assert(pre.drop_last() =~= names.take(i - 1));
        i = i - 1;
    }
    assert(names.take(0) =~= Seq::<Seq<char>>::empty());
    None
}

/// Copies a list of names.
fn copy_names(v: &Vec<String>) -> (r: Vec<String>)
    ensures
        r@.len() == v@.len(),
        forall|k: int| 0 <= k < v@.len() ==> (#[trigger] r@[k])@ == v@[k]@,
{
    let mut r: Vec<String> = Vec::new();
    let mut k: usize = 0;
    while k < v.len()
        invariant
            k <= v@.len(),
            r@.len() == k,
            forall|q: int| 0 <= q < k ==> (#[trigger] r@[q])@ == v@[q]@,
        decreases v@.len() - k,
    {
        r.push(v[k].clone());
        k = k + 1;
    }
    r
}

impl FleetGraph {
    /// A fleet of `n` generated agents and no channels.
    fn generated(n: usize) -> (g: Self)
        ensures
            g.agents@.len() == n,
            forall|i: int| 0 <= i < n ==> is_generated_agent(#[trigger] g.agents@[i], i as nat),
            g.edges@.len() == 0,
            g.wf(),
    {
        let mut g = FleetGraph::new();
        let mut i: usize = 0;
        while i < n
            invariant
                i <= n,
                g.agents@.len() == i,
                forall|a: int| 0 <= a < i ==> is_generated_agent(#[trigger] g.agents@[a], a as nat),
                g.edges@.len() == 0,
                g.wf(),
            decreases n - i,
        {
            g.add_agent(generated_agent(i));
            i = i + 1;
        }
        g
    }

    /// Adds the unit channels `a -> b` and `b -> a`.
    fn add_unit_pair(&mut self, a: usize, b: usize)
        requires
            a < old(self).agents@.len(),
            b < old(self).agents@.len(),
            old(self).wf(),
        ensures
            final(self).agents@ == old(self).agents@,
            final(self).edges@ == old(self).edges@ + seq![unit_edge(a as int, b as int), unit_edge(b as int, a as int)],
            final(self).wf(),
    {
        self.add_edge(CommEdge::new(a, b, UNIT_BITS, UNIT_BITS));
        self.add_edge(CommEdge::new(b, a, UNIT_BITS, UNIT_BITS));
        assert(self.edges@ =~= old(self).edges@ + seq![unit_edge(a as int, b as int), unit_edge(b as int, a as int)]);
    }

    /// Adds a unit channel `i -> j` between every two distinct agents of `[lo, hi)`.
    fn add_clique(&mut self, lo: usize, hi: usize)
        requires
            lo <= hi <= old(self).agents@.len(),
            old(self).wf(),
        ensures
            final(self).agents@ == old(self).agents@,
            final(self).edges@ == old(self).edges@ + clique_edges(lo as int, hi as int, hi as int),
            final(self).wf(),
    {
        let ghost base = self.edges@;
        let mut i: usize = lo;
        while i < hi
            invariant
                lo <= i <= hi <= self.agents@.len(),
                self.agents@ == old(self).agents@,
                self.edges@ == base + clique_edges(lo as int, hi as int, i as int),
                self.wf(),
            decreases hi - i,
        {
            let mut j: usize = lo;
            while j < hi
                invariant
                    lo <= i < hi <= self.agents@.len(),
                    lo <= j <= hi,
                    self.agents@ == old(self).agents@,
                    self.edges@ == base + clique_edges(lo as int, hi as int, i as int) + clique_row(
                        lo as int,
                        i as int,
                        j as int,
                    ),
                    self.wf(),
                decreases hi - j,
            {
                if i != j {
                    self.add_edge(CommEdge::new(i, j, UNIT_BITS, UNIT_BITS));
                }
                proof {
                    assert(clique_row(lo as int, i as int, j + 1) == clique_row(lo as int, i as int, j as int) + if j
                        != i {
                        seq![unit_edge(i as int, j as int)]
                    } else {
                        Seq::empty()
                    });
                    assert(self.edges@ =~= base + clique_edges(lo as int, hi as int, i as int) + clique_row(
                        lo as int,
                        i as int,
                        j + 1,
                    ));
                }
                j = j + 1;
            }
            proof {
                assert(clique_edges(lo as int, hi as int, i + 1) == clique_edges(lo as int, hi as int, i as int)
                    + clique_row(lo as int, i as int, hi as int));
                assert(self.edges@ =~= base + clique_edges(lo as int, hi as int, i + 1));
            }
            i = i + 1;
        }
    }

    /// Create a complete graph on `n` nodes: a unit channel from every agent
    /// to every other agent.
    pub fn complete(n: usize) -> (g: Self)
        ensures
            g.agents@.len() == n,
            forall|i: int| 0 <= i < n ==> is_generated_agent(#[trigger] g.agents@[i], i as nat),
            g.edges@ == clique_edges(0, n as int, n as int),
            g.wf(),
    {
        let mut g = Self::generated(n);
        g.add_clique(0, n);
        assert(g.edges@ =~= clique_edges(0, n as int, n as int));
        g
    }

    /// Create a path graph: 0-1-2-...-(n-1), with unit channels both ways.
    pub fn path(n: usize) -> (g: Self)
        ensures
            g.agents@.len() == n,
            forall|i: int| 0 <= i < n ==> is_generated_agent(#[trigger] g.agents@[i], i as nat),
            g.edges@ == path_edges(n - 1),
            g.wf(),
    {
        let mut g = Self::generated(n);
        let m: usize = if n > 0 { n - 1 } else { 0 };
        let mut i: usize = 0;
        while i < m
            invariant
                m == (if n > 0 { n - 1 } else { 0 }),
                i <= m,
                g.agents@.len() == n,
                forall|a: int| 0 <= a < n ==> is_generated_agent(#[trigger] g.agents@[a], a as nat),
                g.edges@ == path_edges(i as int),
                g.wf(),
            decreases m - i,
        {
            g.add_unit_pair(i, i + 1);
            i = i + 1;
        }
        assert(path_edges(n - 1) == path_edges(m as int));
        g
    }

    /// Create a cycle graph: 0-1-2-...-(n-1)-0 (a path when `n <= 2`).
    pub fn cycle(n: usize) -> (g: Self)
        ensures
            g.agents@.len() == n,
            forall|i: int| 0 <= i < n ==> is_generated_agent(#[trigger] g.agents@[i], i as nat),
            g.edges@ == path_edges(n - 1) + if n > 2 {
                seq![unit_edge(n - 1, 0), unit_edge(0, n - 1)]
            } else {
                Seq::empty()
            },
            g.wf(),
    {
        let mut g = Self::path(n);
        if n > 2 {
            g.add_unit_pair(n - 1, 0);
        } else {
            assert(g.edges@ =~= path_edges(n - 1) + Seq::<CommEdge>::empty());
        }
        g
    }

    /// Create a star graph: center node 0 connected both ways to all others.
    pub fn star(n: usize) -> (g: Self)
        ensures
            g.agents@.len() == n,
            forall|i: int| 0 <= i < n ==> is_generated_agent(#[trigger] g.agents@[i], i as nat),
            g.edges@ == star_edges(n as int),
            g.wf(),
    {
        let mut g = Self::generated(n);
        let mut i: usize = 1;
        while i < n
            invariant
                1 <= i,
                i <= n || (n == 0 && i == 1),
                g.agents@.len() == n,
                forall|a: int| 0 <= a < n ==> is_generated_agent(#[trigger] g.agents@[a], a as nat),
                g.edges@ == star_edges(i as int),
                g.wf(),
            decreases n - i,
        {
            g.add_unit_pair(0, i);
            i = i + 1;
        }
        assert(star_edges(n as int) == star_edges(i as int));
        g
    }

    /// Create a barbell graph: two cliques of size `k` joined by a single
    /// bridge between agents `k - 1` and `k`.
    pub fn barbell(k: usize) -> (g: Self)
        requires
            1 <= k,
            2 * k <= usize::MAX,
        ensures
            g.agents@.len() == 2 * k,
            forall|i: int| 0 <= i < 2 * k ==> is_generated_agent(#[trigger] g.agents@[i], i as nat),
            g.edges@ == clique_edges(0, k as int, k as int) + clique_edges(k as int, 2 * k, 2 * k) + seq![
                unit_edge(k - 1, k as int),
                unit_edge(k as int, k - 1),
            ],
            g.wf(),
    {
        let n = 2 * k;
        let mut g = Self::generated(n);
        g.add_clique(0, k);
        g.add_clique(k, n);
        g.add_unit_pair(k - 1, k);
        g
    }

    /// Create two disconnected cliques of `k` agents each.
    pub fn two_cliques(k: usize) -> (g: Self)
        requires
            2 * k <= usize::MAX,
        ensures
            g.agents@.len() == 2 * k,
            forall|i: int| 0 <= i < 2 * k ==> is_generated_agent(#[trigger] g.agents@[i], i as nat),
            g.edges@ == clique_edges(0, k as int, k as int) + clique_edges(k as int, 2 * k, 2 * k),
            g.wf(),
    {
        let n = 2 * k;
        let mut g = Self::generated(n);
        g.add_clique(0, k);
        g.add_clique(k, n);
        g
    }


    /// Build from GitHub org data: repositories as nodes, dependencies as
    /// edges. Each repository has a name (the agent id) and a list of
    /// capabilities (languages, topics); agents start idle. Each dependency
    /// `(from, to, weight)` between two known repositories becomes a channel
    /// weighted by its coupling strength (the bit pattern `weight`) with unit
    /// latency; when several repositories share a name, the last one counts.
    pub fn from_github_org(
        repos: Vec<(String, Vec<String>)>,
        dependencies: Vec<(String, String, u64)>,
    ) -> (g: Self)
        ensures
            g.agents@.len() == repos@.len(),
            forall|i: int|
                0 <= i < repos@.len() ==> {
                    &&& (#[trigger] g.agents@[i]).id@ == repos@[i].0@
                    &&& g.agents@[i].capabilities@.len() == repos@[i].1@.len()
                    &&& forall|k: int|
                        0 <= k < repos@[i].1@.len() ==> (#[trigger] g.agents@[i].capabilities@[k])@
                            == repos@[i].1@[k]@
                    &&& g.agents@[i].load_bits == ZERO_BITS
                },
            g.edges@ == dependency_edges(repo_names(repos@), dependency_view(dependencies@)),
            g.edges@ == dependency_view(dependencies@).filter(
                |d: (Seq<char>, Seq<char>, u64)| names_known(repo_names(repos@), d),
            ).map_values(|d: (Seq<char>, Seq<char>, u64)| dependency_channel(repo_names(repos@), d)),
            g.wf(),
    {
        let mut graph = Self::new();
        let mut i: usize = 0;
        while i < repos.len()
            invariant
                i <= repos@.len(),
                graph.agents@.len() == i,
                graph.edges@.len() == 0,
                graph.wf(),
                forall|a: int|
                    0 <= a < i ==> {
                        &&& (#[trigger] graph.agents@[a]).id@ == repos@[a].0@
                        &&& graph.agents@[a].capabilities@.len() == repos@[a].1@.len()
                        &&& forall|k: int|
                            0 <= k < repos@[a].1@.len() ==> (#[trigger] graph.agents@[a].capabilities@[k])@
                                == repos@[a].1@[k]@
                        &&& graph.agents@[a].load_bits == ZERO_BITS
                    },
            decreases repos@.len() - i,
        {
            let name = repos[i].0.clone();
            let caps = copy_names(&repos[i].1);
            graph.add_agent(AgentNode::new(name, caps, ZERO_BITS));
            i = i + 1;
        }
        let ghost names = repo_names(repos@);
        let ghost deps = dependency_view(dependencies@);
        let mut k: usize = 0;
        while k < dependencies.len()
            invariant
                k <= dependencies@.len(),
                names == repo_names(repos@),
                names.len() == repos@.len(),
                deps == dependency_view(dependencies@),
                deps.len() == dependencies@.len(),
                graph.agents@.len() == repos@.len(),
                graph.wf(),
                graph.edges@ == dependency_edges(names, deps.take(k as int)),
                forall|a: int|
                    0 <= a < repos@.len() ==> {
                        &&& (#[trigger] graph.agents@[a]).id@ == repos@[a].0@
                        &&& graph.agents@[a].capabilities@.len() == repos@[a].1@.len()
                        &&& forall|q: int|
                            0 <= q < repos@[a].1@.len() ==> (#[trigger] graph.agents@[a].capabilities@[q])@
                                == repos@[a].1@[q]@
                        &&& graph.agents@[a].load_bits == ZERO_BITS
                    },
            decreases dependencies@.len() - k,
        {
            let from = find_repo(&repos, &dependencies[k].0);
            let to = find_repo(&repos, &dependencies[k].1);
            proof {
                assert(deps.take(k + 1).drop_last() =~= deps.take(k as int));
                assert(deps.take(k + 1).last() == deps[k as int]);
                lemma_last_named_bound(names, deps[k as int].0);
                lemma_last_named_bound(names, deps[k as int].1);
            }
            match (from, to) {
                (Some(a), Some(b)) => {
                    graph.add_edge(CommEdge::new(a, b, dependencies[k].2, UNIT_BITS));
                },
                _ => {},
            }
            k = k + 1;
        }
        assert(deps.take(dependencies@.len() as int) =~= deps);
        proof {
            lemma_dependency_edges_law(names, deps);
        }
        graph
    }

    /// Create a random graph on `n` agents. For every ordered pair `i != j`,
    /// in lexicographic order, the generator `rng <- rng * 6364136223846793005
    /// + 1442695040888963407 (mod 2^64)` (started from `seed`) is advanced once,
    /// and when the top 31 bits of the new state fall below `threshold`, unit
    /// channels `i -> j` and `j -> i` are added. A threshold of
    /// `ceil(p * 2^31)` (clamped to `[0, 2^31]`) gives each draw probability `p`.
    pub fn random(n: usize, threshold: u64, seed: u64) -> (g: Self)
        ensures
            g.agents@.len() == n,
            forall|i: int| 0 <= i < n ==> is_generated_agent(#[trigger] g.agents@[i], i as nat),
            g.edges@ == random_rows(n as int, threshold, n as int, seed).0,
            forall|i: int, j: int|
                0 <= i < n && 0 <= j < n && i != j ==> (#[trigger] g.edges@.contains(unit_edge(i, j)) <==> accepts(
                    threshold,
                    lcg_iter(seed, (i * (n - 1) + target_rank(i, j) + 1) as nat),
                ) || accepts(threshold, lcg_iter(seed, (j * (n - 1) + target_rank(j, i) + 1) as nat))),
            g.wf(),
    {
        let mut graph = Self::generated(n);
        let mut rng = seed;
        let mut i: usize = 0;
        while i < n
            invariant
                i <= n,
                graph.agents@.len() == n,
                forall|a: int| 0 <= a < n ==> is_generated_agent(#[trigger] graph.agents@[a], a as nat),
                graph.wf(),
                (graph.edges@, rng) == random_rows(n as int, threshold, i as int, seed),
            decreases n - i,
        {
            let ghost base = graph.edges@;
            let ghost rng0 = rng;
            let mut j: usize = 0;
            while j < n
                invariant
                    i < n,
                    j <= n,
                    graph.agents@.len() == n,
                    forall|a: int| 0 <= a < n ==> is_generated_agent(#[trigger] graph.agents@[a], a as nat),
                    graph.wf(),
                    (graph.edges@, rng) == (base + random_row(threshold, i as int, j as int, rng0).0, random_row(
                        threshold,
                        i as int,
                        j as int,
                        rng0,
                    ).1),
                decreases n - j,
            {
                if i != j {
                    rng = rng.wrapping_mul(6364136223846793005u64).wrapping_add(1442695040888963407u64);
                    if (rng >> 33u64) < threshold {
                        graph.add_unit_pair(i, j);
                    }
                }
                proof {
                    let (e, r) = random_row(threshold, i as int, j as int, rng0);
                    assert(graph.edges@ =~= base + random_row(threshold, i as int, j + 1, rng0).0);
                }
                j = j + 1;
            }
            proof {
                let (e, r) = random_rows(n as int, threshold, i as int, seed);
                assert(graph.edges@ =~= base + random_row(threshold, i as int, n as int, rng0).0);
            }
            i = i + 1;
        }
        proof {
            lemma_random_rows_law(n as int, threshold, n as int, seed);
        }
        graph
    }

}

} // verus!
