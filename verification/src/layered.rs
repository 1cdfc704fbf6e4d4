//! Laying a flowchart out in ranks, and drawing it.
//!
//! Each node goes on the rank one past the deepest of its parents. The order
//! within a rank is the document's own wherever that draws honestly; where a
//! band between two ranks would offer connections nobody wrote, other orders
//! are tried, then edges are routed round the outside, and failing that the
//! chart is declined.

use vstd::prelude::*;
use crate::mermaid::{Flowchart, Edge, Direction, Shape};
use crate::grid::{Grid, Cell, UP, DOWN, LEFT, RIGHT};
use crate::width::WidthCalc;

verus! {

/// Columns between adjacent boxes on the same rank.
pub const GAP: usize = 3;

/// Rows in the connector band between two ranks.
pub const BAND: usize = 3;

/// Every edge points from a lower rank to a higher one.
pub open spec fn is_layering(chart: &Flowchart, rank: Seq<usize>) -> bool {
    &&& rank.len() == chart.nodes@.len()
    &&& forall|i: int|
        0 <= i < chart.edges@.len() ==> rank[(#[trigger] chart.edges@[i]).to as int] > rank[chart.edges@[i].from as int]
}

/// Whether the chart has an edge from `a` to `b`.
pub open spec fn linked(chart: Flowchart, a: int, b: int) -> bool {
    exists|e: int| 0 <= e < chart.edges@.len() && (#[trigger] chart.edges@[e]).from == a && chart.edges@[e].to == b
}

/// Whether `p` is a walk along the chart's edges: at least one node, each a
/// node of the chart, each linked to the next.
pub open spec fn is_path(chart: Flowchart, p: Seq<int>) -> bool {
    &&& p.len() >= 1
    &&& forall|i: int| 0 <= i < p.len() ==> 0 <= #[trigger] p[i] < chart.nodes@.len()
    &&& forall|i: int| 0 <= i < p.len() - 1 ==> linked(chart, #[trigger] p[i], p[i + 1])
}

/// Whether no walk along the chart's edges comes back to where it started.
pub open spec fn acyclic(chart: Flowchart) -> bool {
    forall|p: Seq<int>| #[trigger] is_path(chart, p) && p.len() >= 2 ==> p[0] != p.last()
}

/// A node's rank is not above one past some parent's, when it is above 0.
pub open spec fn parent_bound(chart: Flowchart, rank: Seq<usize>, v: int) -> bool {
    rank[v] > 0 ==> exists|e: int|
        0 <= e < chart.edges@.len() && (#[trigger] chart.edges@[e]).to == v && rank[v] <= rank[chart.edges@[e].from as int] + 1
}

/// A node's rank is one past its deepest parent's: 0 for a node nothing
/// points to, and otherwise one more than some parent's (every parent being
/// below it, by the layering).
pub open spec fn longest_rank(chart: Flowchart, rank: Seq<usize>, v: int) -> bool {
    &&& (forall|e: int| 0 <= e < chart.edges@.len() ==> (#[trigger] chart.edges@[e]).to != v) ==> rank[v] == 0
    &&& rank[v] > 0 ==> exists|e: int|
        0 <= e < chart.edges@.len() && (#[trigger] chart.edges@[e]).to == v && rank[v] == rank[chart.edges@[e].from as int] + 1
}

/// Along a walk of a layered chart the ranks climb.
proof fn lemma_path_climbs(chart: Flowchart, rank: Seq<usize>, p: Seq<int>)
    requires
        chart.wf(),
        is_layering(&chart, rank),
        is_path(chart, p),
    ensures
        p.len() >= 2 ==> rank[p[0]] < rank[p.last()],
    decreases p.len(),
{
    if p.len() >= 2 {
        let q = p.drop_last();
        assert(is_path(chart, q)) by {
            assert forall|i: int| 0 <= i < q.len() - 1 implies linked(chart, #[trigger] q[i], q[i + 1]) by {
                assert(q[i] == p[i] && q[i + 1] == p[i + 1]);
                assert(linked(chart, p[i], p[i + 1]));
            }
        }
        lemma_path_climbs(chart, rank, q);
        let n = p.len();
        assert(linked(chart, p[n - 2], p[n - 1]));
        let e = choose|e: int| 0 <= e < chart.edges@.len() && (#[trigger] chart.edges@[e]).from == p[n - 2] && chart.edges@[e].to == p[n - 1];
        assert(rank[chart.edges@[e].to as int] > rank[chart.edges@[e].from as int]);
    }
}

/// A walk through more nodes than the chart has visits one twice, so the
/// chart has a cycle.
proof fn lemma_long_path_cycles(chart: Flowchart, p: Seq<int>)
    requires
        is_path(chart, p),
        p.len() > chart.nodes@.len(),
    ensures
        !acyclic(chart),
{
    let n = chart.nodes@.len() as int;
    if p.no_duplicates() {
        p.unique_seq_to_set();
        vstd::set_lib::lemma_int_range(0, n);
        assert(p.to_set().subset_of(vstd::set_lib::set_int_range(0, n))) by {
            assert forall|x: int| p.to_set().contains(x) implies vstd::set_lib::set_int_range(0, n).contains(x) by {
                let i = choose|i: int| 0 <= i < p.len() && p[i] == x;
                assert(0 <= p[i] < n);
            }
        }
        vstd::set_lib::lemma_len_subset(p.to_set(), vstd::set_lib::set_int_range(0, n));
        assert(false);
    } else {
        let (i, j) = choose|i: int, j: int| 0 <= i < p.len() && 0 <= j < p.len() && i != j && p[i] == p[j];
        let (a, b) = if i < j { (i, j) } else { (j, i) };
        let c = p.subrange(a, b + 1);
        assert(is_path(chart, c)) by {
            assert forall|k: int| 0 <= k < c.len() implies 0 <= #[trigger] c[k] < chart.nodes@.len() by {
                assert(c[k] == p[a + k]);
            }
            assert forall|k: int| 0 <= k < c.len() - 1 implies linked(chart, #[trigger] c[k], c[k + 1]) by {
                assert(c[k] == p[a + k] && c[k + 1] == p[a + k + 1]);
                assert(linked(chart, p[a + k], p[a + k + 1]));
            }
        }
        assert(c[0] == c.last());
    }
}

/// Assign each node to a rank: one past the deepest of its parents, sources
/// at rank 0.
///
/// Returns `None` for a cyclic graph, which this renderer does not model,
/// including `A --> A`, the smallest cycle there is.
pub fn ranks(chart: &Flowchart) -> (r: Option<Vec<usize>>)
    requires
        chart.wf(),
    ensures
        r matches Some(rank) ==> is_layering(chart, rank@) && forall|i: int|
            0 <= i < rank@.len() ==> #[trigger] rank@[i] < chart.nodes@.len(),
        r is Some <==> acyclic(*chart),
        r matches Some(rank) ==> forall|v: int| 0 <= v < rank@.len() ==> longest_rank(*chart, rank@, v),
{
    let n = chart.nodes.len();
    let mut rank: Vec<usize> = Vec::new();
    let ghost mut paths: Seq<Seq<int>> = Seq::empty();
    let mut i: usize = 0;
    while i < n
        invariant
            i <= n,
            n == chart.nodes@.len(),
            rank@.len() == i,
            paths.len() == i,
            forall|k: int| 0 <= k < i ==> #[trigger] rank@[k] == 0,
            forall|k: int| 0 <= k < i ==> parent_bound(*chart, rank@, k),
            forall|k: int| 0 <= k < i ==> is_path(*chart, #[trigger] paths[k]) && paths[k].last() == k
                && paths[k].len() == rank@[k] + 1,
        decreases n - i,
    {
        rank.push(0);
        proof {
            let w = seq![i as int];
            assert(is_path(*chart, w));
            paths = paths.push(w);
        }
        i = i + 1;
    }
    // Relax every edge until nothing moves. On a chart without cycles the
    // ranks settle within one round per node, each at the length of the
    // longest path reaching it; a rank reaching the node count can only come
    // from a cycle.
    let mut round: usize = 0;
    let ghost mut settled = false;
    while round < n
        invariant_except_break
            !settled,
        invariant
            chart.wf(),
            n == chart.nodes@.len(),
            rank@.len() == n,
            paths.len() == n,
            forall|k: int| 0 <= k < n ==> #[trigger] rank@[k] < n,
            forall|k: int| 0 <= k < n ==> parent_bound(*chart, rank@, k),
            forall|k: int| 0 <= k < n ==> is_path(*chart, #[trigger] paths[k]) && paths[k].last() == k
                && paths[k].len() == rank@[k] + 1,
            forall|p: Seq<int>| #[trigger] is_path(*chart, p) && p.len() <= round + 1 ==> rank@[p.last()] >= p.len() - 1,
            settled ==> forall|e: int| 0 <= e < chart.edges@.len() ==> rank@[(#[trigger] chart.edges@[e]).to as int] > rank@[chart.edges@[e].from as int],
        ensures
            settled || round >= n,
            forall|k: int| 0 <= k < n ==> parent_bound(*chart, rank@, k),
            settled ==> forall|e: int| 0 <= e < chart.edges@.len() ==> rank@[(#[trigger] chart.edges@[e]).to as int] > rank@[chart.edges@[e].from as int],
            forall|p: Seq<int>| #[trigger] is_path(*chart, p) && p.len() <= round + 1 ==> rank@[p.last()] >= p.len() - 1,
        decreases n - round,
    {
        let ghost st = rank@;
        let mut changed = false;
        let mut k: usize = 0;
        while k < chart.edges.len()
            invariant
                chart.wf(),
                n == chart.nodes@.len(),
                rank@.len() == n,
                st.len() == n,
                paths.len() == n,
                k <= chart.edges@.len(),
                round < n,
                forall|j: int| 0 <= j < n ==> #[trigger] rank@[j] < n,
                forall|j: int| 0 <= j < n ==> #[trigger] rank@[j] >= st[j],
                forall|j: int| 0 <= j < n ==> parent_bound(*chart, rank@, j),
                forall|j: int| 0 <= j < n ==> is_path(*chart, #[trigger] paths[j]) && paths[j].last() == j
                    && paths[j].len() == rank@[j] + 1,
                forall|p: Seq<int>| #[trigger] is_path(*chart, p) && p.len() <= round + 1 ==> st[p.last()] >= p.len() - 1,
                forall|e: int| 0 <= e < k ==> rank@[(#[trigger] chart.edges@[e]).to as int] >= st[chart.edges@[e].from as int] + 1,
                !changed ==> rank@ == st,
                !changed ==> forall|e: int| 0 <= e < k ==> rank@[(#[trigger] chart.edges@[e]).to as int] > rank@[chart.edges@[e].from as int],
            decreases chart.edges.len() - k,
        {
            let from = chart.edges[k].from;
            let to = chart.edges[k].to;
            if rank[to] <= rank[from] {
                if rank[from] + 1 >= n {
                    proof {
                        let w = paths[from as int].push(to as int);
                        assert(is_path(*chart, w)) by {
                            assert(linked(*chart, from as int, to as int)) by {
                                assert(chart.edges@[k as int].from == from && chart.edges@[k as int].to == to);
                            }
                            assert forall|q: int| 0 <= q < w.len() - 1 implies linked(*chart, #[trigger] w[q], w[q + 1]) by {
                                if q < w.len() - 2 {
                                    assert(w[q] == paths[from as int][q] && w[q + 1] == paths[from as int][q + 1]);
                                } else {
                                    assert(w[q] == paths[from as int].last());
                                }
                            }
                            assert forall|q: int| 0 <= q < w.len() implies 0 <= #[trigger] w[q] < chart.nodes@.len() by {
                                if q < w.len() - 1 {
                                    assert(w[q] == paths[from as int][q]);
                                }
                            }
                        }
                        lemma_long_path_cycles(*chart, w);
                    }
                    return None;
                }
                let ghost before = rank@;
                rank.set(to, rank[from] + 1);
                proof {
                    assert forall|j: int| 0 <= j < n implies parent_bound(*chart, rank@, j) by {
                        if j == to as int {
                            assert(chart.edges@[k as int].to == to && chart.edges@[k as int].from == from);
                        } else if rank@[j] > 0 {
                            assert(parent_bound(*chart, before, j));
                            let e = choose|e: int| 0 <= e < chart.edges@.len() && (#[trigger] chart.edges@[e]).to == j
                                && before[j] <= before[chart.edges@[e].from as int] + 1;
                            assert(rank@[chart.edges@[e].from as int] >= before[chart.edges@[e].from as int]);
                        }
                    }
                    let w = paths[from as int].push(to as int);
                    assert(is_path(*chart, w)) by {
                        assert(linked(*chart, from as int, to as int)) by {
                            assert(chart.edges@[k as int].from == from && chart.edges@[k as int].to == to);
                        }
                        assert forall|q: int| 0 <= q < w.len() - 1 implies linked(*chart, #[trigger] w[q], w[q + 1]) by {
                            if q < w.len() - 2 {
                                assert(w[q] == paths[from as int][q] && w[q + 1] == paths[from as int][q + 1]);
                            } else {
                                assert(w[q] == paths[from as int].last());
                            }
                        }
                        assert forall|q: int| 0 <= q < w.len() implies 0 <= #[trigger] w[q] < chart.nodes@.len() by {
                            if q < w.len() - 1 {
                                assert(w[q] == paths[from as int][q]);
                            }
                        }
                    }
                    paths = paths.update(to as int, w);
                    assert forall|e: int| 0 <= e < k + 1 implies rank@[(#[trigger] chart.edges@[e]).to as int] >= st[chart.edges@[e].from as int] + 1 by {
                        if e < k {
                            assert(rank@[chart.edges@[e].to as int] >= before[chart.edges@[e].to as int]);
                        }
                    }
                }
                changed = true;
            }
            k = k + 1;
        }
        if !changed {
            proof {
                settled = true;
            }
            break;
        }
        proof {
            assert forall|p: Seq<int>| #[trigger] is_path(*chart, p) && p.len() <= round + 2 implies rank@[p.last()] >= p.len() - 1 by {
                if p.len() >= 2 {
                    let m = p.len();
                    let q = p.drop_last();
                    assert(is_path(*chart, q)) by {
                        assert forall|t: int| 0 <= t < q.len() - 1 implies linked(*chart, #[trigger] q[t], q[t + 1]) by {
                            assert(q[t] == p[t] && q[t + 1] == p[t + 1]);
                            assert(linked(*chart, p[t], p[t + 1]));
                        }
                    }
                    assert(q.last() == p[m - 2]);
                    assert(st[q.last()] >= q.len() - 1);
                    assert(linked(*chart, p[m - 2], p[m - 1]));
                    let e = choose|e: int| 0 <= e < chart.edges@.len() && (#[trigger] chart.edges@[e]).from == p[m - 2] && chart.edges@[e].to == p[m - 1];
                    assert(rank@[chart.edges@[e].to as int] >= st[chart.edges@[e].from as int] + 1);
                } else {
                    assert(0 <= p[0] < n);
                }
            }
        }
        round = round + 1;
    }
    proof {
        if acyclic(*chart) && !settled {
            assert forall|e: int| 0 <= e < chart.edges@.len() implies rank@[(#[trigger] chart.edges@[e]).to as int] > rank@[chart.edges@[e].from as int] by {
                let u = chart.edges@[e].from as int;
                let v = chart.edges@[e].to as int;
                let w = paths[u].push(v);
                assert(is_path(*chart, w)) by {
                    assert(linked(*chart, u, v));
                    assert forall|q: int| 0 <= q < w.len() - 1 implies linked(*chart, #[trigger] w[q], w[q + 1]) by {
                        if q < w.len() - 2 {
                            assert(w[q] == paths[u][q] && w[q + 1] == paths[u][q + 1]);
                        } else {
                            assert(w[q] == paths[u].last());
                        }
                    }
                    assert forall|q: int| 0 <= q < w.len() implies 0 <= #[trigger] w[q] < chart.nodes@.len() by {
                        if q < w.len() - 1 {
                            assert(w[q] == paths[u][q]);
                        }
                    }
                }
                assert(rank@[u] < n);
                assert(w.len() <= round + 1);
                assert(w.last() == v);
            }
        }
    }
    let mut k: usize = 0;
    while k < chart.edges.len()
        invariant
            chart.wf(),
            rank@.len() == chart.nodes@.len(),
            k <= chart.edges@.len(),
            forall|j: int| 0 <= j < chart.nodes@.len() ==> #[trigger] rank@[j] < chart.nodes@.len(),
            forall|j: int| 0 <= j < chart.nodes@.len() ==> parent_bound(*chart, rank@, j),
            forall|j: int| 0 <= j < k ==> rank@[(#[trigger] chart.edges@[j]).to as int] > rank@[chart.edges@[j].from as int],
            acyclic(*chart) ==> forall|e: int| 0 <= e < chart.edges@.len() ==> rank@[(#[trigger] chart.edges@[e]).to as int] > rank@[chart.edges@[e].from as int],
        decreases chart.edges.len() - k,
    {
        if rank[chart.edges[k].to] <= rank[chart.edges[k].from] {
            return None;
        }
        k = k + 1;
    }
    proof {
        assert forall|p: Seq<int>| #[trigger] is_path(*chart, p) && p.len() >= 2 implies p[0] != p.last() by {
            lemma_path_climbs(*chart, rank@, p);
        }
        assert forall|v: int| 0 <= v < rank@.len() implies longest_rank(*chart, rank@, v) by {
            assert(parent_bound(*chart, rank@, v));
            if rank@[v] > 0 {
                let e = choose|e: int| 0 <= e < chart.edges@.len() && (#[trigger] chart.edges@[e]).to == v
                    && rank@[v] <= rank@[chart.edges@[e].from as int] + 1;
                assert(rank@[chart.edges@[e].to as int] > rank@[chart.edges@[e].from as int]);
            }
        }
    }
    Some(rank)
}

/// A rank assignment and an order within each rank that index only nodes of
/// the chart and ranks of the order.
pub open spec fn order_ok(n: nat, rank: Seq<usize>, by_rank: Seq<Vec<usize>>) -> bool {
    &&& rank.len() == n
    &&& forall|i: int| 0 <= i < n ==> #[trigger] rank[i] < by_rank.len()
    &&& forall|r: int, k: int|
        0 <= r < by_rank.len() && 0 <= k < by_rank[r]@.len() ==> #[trigger] by_rank[r]@[k] < n
}

/// The nodes of each rank, in the order they were written.
pub fn group_by_rank(rank: &Vec<usize>, depth: usize) -> (r: Vec<Vec<usize>>)
    requires
        forall|i: int| 0 <= i < rank@.len() ==> #[trigger] rank@[i] < depth,
    ensures
        r@.len() == depth,
        order_ok(rank@.len() as nat, rank@, r@),
{
    let mut by_rank: Vec<Vec<usize>> = Vec::new();
    let mut d: usize = 0;
    while d < depth
        invariant
            d <= depth,
            by_rank@.len() == d,
            forall|r: int| 0 <= r < d ==> (#[trigger] by_rank@[r])@.len() == 0,
        decreases depth - d,
    {
        by_rank.push(Vec::new());
        d = d + 1;
    }
    let mut i: usize = 0;
    while i < rank.len()
        invariant
            i <= rank@.len(),
            by_rank@.len() == depth,
            forall|j: int| 0 <= j < rank@.len() ==> #[trigger] rank@[j] < depth,
            forall|r: int, k: int|
                0 <= r < by_rank@.len() && 0 <= k < by_rank@[r]@.len() ==> #[trigger] by_rank@[r]@[k] < i,
        decreases rank.len() - i,
    {
        let r = rank[i];
        let mut row = by_rank[r].clone();
        row.push(i);
        by_rank.set(r, row);
        i = i + 1;
    }
    by_rank
}

} // verus!

verus! {

/// Whether `v` holds `x`.
pub fn contains(v: &Vec<usize>, x: usize) -> (r: bool)
    ensures
        r == v@.contains(x),
{
    let mut k: usize = 0;
    while k < v.len()
        invariant
            k <= v@.len(),
            forall|j: int| 0 <= j < k ==> v@[j] != x,
        decreases v.len() - k,
    {
        if v[k] == x {
            return true;
        }
        k = k + 1;
    }
    false
}

/// A permutation of `0..keys.len()` ordering the keys ascending, equal keys
/// in their original order.
pub fn sort_by_key(keys: &Vec<i128>) -> (r: Vec<usize>)
    ensures
        r@.len() == keys@.len(),
        forall|k: int| 0 <= k < r@.len() ==> #[trigger] r@[k] < keys@.len(),
        forall|a: int, b: int| 0 <= a < b < r@.len() ==> keys@[r@[a] as int] <= keys@[r@[b] as int],
{
    let mut out: Vec<usize> = Vec::new();
    let mut j: usize = 0;
    while j < keys.len()
        invariant
            j <= keys@.len(),
            out@.len() == j,
            forall|k: int| 0 <= k < out@.len() ==> #[trigger] out@[k] < j,
            forall|a: int, b: int| 0 <= a < b < out@.len() ==> keys@[out@[a] as int] <= keys@[out@[b] as int],
        decreases keys.len() - j,
    {
        let mut pos = out.len();
        while pos > 0 && keys[out[pos - 1]] > keys[j]
            invariant
                pos <= out@.len(),
                out@.len() == j,
                j < keys@.len(),
                forall|k: int| 0 <= k < out@.len() ==> #[trigger] out@[k] < j,
                forall|k: int| pos <= k < out@.len() ==> keys@[out@[k] as int] > keys@[j as int],
            decreases pos,
        {
            pos = pos - 1;
        }
        let ghost before = out@;
        out.insert(pos, j);
        proof {
            assert forall|a: int, b: int| 0 <= a < b < out@.len() implies keys@[out@[a] as int] <= keys@[out@[b] as int] by {
                if b < pos {
                } else if a > pos {
                    assert(out@[a] == before[a - 1]);
                    assert(out@[b] == before[b - 1]);
                } else if a == pos {
                    assert(out@[b] == before[b - 1]);
                } else {
                    if b == pos {
                        assert(out@[a] == before[a]);
                        assert(keys@[before[pos - 1] as int] <= keys@[j as int]);
                        if a < pos - 1 {
                            assert(keys@[before[a] as int] <= keys@[before[pos - 1] as int]);
                        }
                    } else {
                        assert(out@[a] == before[a]);
                        assert(out@[b] == before[b - 1]);
                    }
                }
            }
        }
        j = j + 1;
    }
    out
}

/// Whether `a * b > c * d`, computed without overflow.
pub fn product_exceeds(a: usize, b: usize, c: usize, d: usize) -> (r: bool)
    ensures
        r == (a * b > c * d),
{
    proof {
        assert(0 <= a * b <= 0xffff_ffff_ffff_ffff * 0xffff_ffff_ffff_ffff) by (nonlinear_arith)
            requires
                0 <= a <= 0xffff_ffff_ffff_ffff,
                0 <= b <= 0xffff_ffff_ffff_ffff,
        ;
        assert(0 <= c * d <= 0xffff_ffff_ffff_ffff * 0xffff_ffff_ffff_ffff) by (nonlinear_arith)
            requires
                0 <= c <= 0xffff_ffff_ffff_ffff,
                0 <= d <= 0xffff_ffff_ffff_ffff,
        ;
    }
    (a as u128) * (b as u128) > (c as u128) * (d as u128)
}

/// A permutation of `0..nums.len()` ordering the fractions `nums[i] /
/// dens[i]` ascending, equal fractions in their original order. Compared by
/// cross-multiplying, so no rounding turns two different fractions into a
/// tie.
pub fn sort_by_fraction(nums: &Vec<usize>, dens: &Vec<usize>) -> (r: Vec<usize>)
    requires
        nums@.len() == dens@.len(),
    ensures
        r@.len() == nums@.len(),
        forall|k: int| 0 <= k < r@.len() ==> #[trigger] r@[k] < nums@.len(),
{
    let mut out: Vec<usize> = Vec::new();
    let mut j: usize = 0;
    while j < nums.len()
        invariant
            nums@.len() == dens@.len(),
            j <= nums@.len(),
            out@.len() == j,
            forall|k: int| 0 <= k < out@.len() ==> #[trigger] out@[k] < j,
        decreases nums.len() - j,
    {
        let mut pos = out.len();
        while pos > 0 && product_exceeds(nums[out[pos - 1]], dens[j], nums[j], dens[out[pos - 1]])
            invariant
                nums@.len() == dens@.len(),
                pos <= out@.len(),
                out@.len() == j,
                j < nums@.len(),
                forall|k: int| 0 <= k < out@.len() ==> #[trigger] out@[k] < j,
            decreases pos,
        {
            pos = pos - 1;
        }
        out.insert(pos, j);
        j = j + 1;
    }
    out
}

/// Whether edge `i` is routed round the outside: it skips a rank, or it was
/// taken off its band.
pub open spec fn is_routed(chart: Flowchart, rank: Seq<usize>, diverted: Seq<usize>, i: int) -> bool {
    let e = chart.edges@[i];
    rank[e.to as int] > rank[e.from as int] + 1 || diverted.contains(i as usize)
}

/// The routed edges among the first `n`, in order.
pub open spec fn routed_upto(chart: Flowchart, rank: Seq<usize>, diverted: Seq<usize>, n: int) -> Seq<usize>
    decreases n,
{
    if n <= 0 {
        Seq::empty()
    } else {
        let p = routed_upto(chart, rank, diverted, n - 1);
        if is_routed(chart, rank, diverted, n - 1) { p.push((n - 1) as usize) } else { p }
    }
}

/// Which edges are routed round the outside rather than drawn on their band:
/// those that skip a rank, and those taken off it.
pub fn routed(chart: &Flowchart, rank: &Vec<usize>, diverted: &Vec<usize>) -> (r: Vec<usize>)
    requires
        chart.wf(),
        rank@.len() == chart.nodes@.len(),
    ensures
        r@ == routed_upto(*chart, rank@, diverted@, chart.edges@.len() as int),
        forall|k: int| 0 <= k < r@.len() ==> #[trigger] r@[k] < chart.edges@.len(),
        forall|k: int| 0 <= k < r@.len() ==> #[trigger] r@[k] >= 0,
{
    let mut out: Vec<usize> = Vec::new();
    let mut i: usize = 0;
    while i < chart.edges.len()
        invariant
            chart.wf(),
            rank@.len() == chart.nodes@.len(),
            i <= chart.edges@.len(),
            out@ == routed_upto(*chart, rank@, diverted@, i as int),
            forall|k: int| 0 <= k < out@.len() ==> #[trigger] out@[k] < chart.edges@.len(),
        decreases chart.edges.len() - i,
    {
        let e = &chart.edges[i];
        let (f, t) = (rank[e.from], rank[e.to]);
        if (t > f && t - f > 1) || contains(diverted, i) {
            out.push(i);
        }
        i = i + 1;
    }
    out
}

/// Whether a routed edge's two ends are each the last box of their rank,
/// the one place the road out to a lane is clear of every box.
pub fn road_is_clear(chart: &Flowchart, rank: &Vec<usize>, by_rank: &Vec<Vec<usize>>, i: usize) -> (r: bool)
    requires
        chart.wf(),
        order_ok(chart.nodes@.len() as nat, rank@, by_rank@),
        i < chart.edges@.len(),
    ensures
        r == road_clear(*chart, rank@, by_rank@, i as int),
{
    let e = &chart.edges[i];
    let a = &by_rank[rank[e.from]];
    let b = &by_rank[rank[e.to]];
    a.len() > 0 && a[a.len() - 1] == e.from && b.len() > 0 && b[b.len() - 1] == e.to
}

/// Whether edge `i`'s two ends are each the last box of their rank.
pub open spec fn road_clear(chart: Flowchart, rank: Seq<usize>, by_rank: Seq<Vec<usize>>, i: int) -> bool {
    let e = chart.edges@[i];
    let a = by_rank[rank[e.from as int] as int]@;
    let b = by_rank[rank[e.to as int] as int]@;
    a.len() > 0 && a.last() == e.from && b.len() > 0 && b.last() == e.to
}

/// The same, asked of every edge the drawing would route.
pub fn roads_out_are_clear(
    chart: &Flowchart,
    rank: &Vec<usize>,
    by_rank: &Vec<Vec<usize>>,
    diverted: &Vec<usize>,
) -> (r: bool)
    requires
        chart.wf(),
        order_ok(chart.nodes@.len() as nat, rank@, by_rank@),
    ensures
        r == forall|j: int| 0 <= j < routed_upto(*chart, rank@, diverted@, chart.edges@.len() as int).len()
            ==> road_clear(*chart, rank@, by_rank@, #[trigger] routed_upto(*chart, rank@, diverted@, chart.edges@.len() as int)[j] as int),
{
    let out = routed(chart, rank, diverted);
    let mut k: usize = 0;
    while k < out.len()
        invariant
            chart.wf(),
            order_ok(chart.nodes@.len() as nat, rank@, by_rank@),
            k <= out@.len(),
            out@ == routed_upto(*chart, rank@, diverted@, chart.edges@.len() as int),
            forall|j: int| 0 <= j < out@.len() ==> #[trigger] out@[j] < chart.edges@.len(),
            forall|j: int| 0 <= j < k ==> road_clear(*chart, rank@, by_rank@, #[trigger] out@[j] as int),
        decreases out.len() - k,
    {
        if !road_is_clear(chart, rank, by_rank, out[k]) {
            return false;
        }
        k = k + 1;
    }
    true
}

/// Whether the chart has an edge from `from` to `to`.
pub fn has_edge(chart: &Flowchart, from: usize, to: usize) -> (r: bool)
    ensures
        r == exists|i: int| 0 <= i < chart.edges@.len() && (#[trigger] chart.edges@[i]).from == from && chart.edges@[i].to == to,
{
    let mut i: usize = 0;
    while i < chart.edges.len()
        invariant
            i <= chart.edges@.len(),
            forall|j: int| 0 <= j < i ==> !((#[trigger] chart.edges@[j]).from == from && chart.edges@[j].to == to),
        decreases chart.edges.len() - i,
    {
        if chart.edges[i].from == from && chart.edges[i].to == to {
            return true;
        }
        i = i + 1;
    }
    false
}

/// Whether every band can be drawn without offering a connection nobody
/// wrote.
///
/// A band has one shared run between two ranks; runs that overlap, or merely
/// touch, are joined, and a joined run offers every connection between the
/// parents above it and the children below it. It is honest exactly when
/// every one of those connections is an edge. `across` is where each box sits
/// along the axis the runs travel.
pub fn bus_runs_are_honest(
    chart: &Flowchart,
    rank: &Vec<usize>,
    diverted: &Vec<usize>,
    across: &Vec<usize>,
) -> (r: bool)
    requires
        chart.wf(),
        rank@.len() == chart.nodes@.len(),
        across@.len() == chart.nodes@.len(),
{
    let mut last: usize = 0;
    let mut i: usize = 0;
    while i < rank.len()
        invariant
            i <= rank@.len(),
        decreases rank.len() - i,
    {
        if rank[i] > last {
            last = rank[i];
        }
        i = i + 1;
    }
    let mut band: usize = 0;
    while band < last
        invariant
            chart.wf(),
            rank@.len() == chart.nodes@.len(),
            across@.len() == chart.nodes@.len(),
            band <= last,
        decreases last - band,
    {
        // One run per edge of the band, spanning between its two ends.
        let mut members: Vec<usize> = Vec::new();
        let mut keys: Vec<i128> = Vec::new();
        let mut los: Vec<usize> = Vec::new();
        let mut his: Vec<usize> = Vec::new();
        let mut k: usize = 0;
        while k < chart.edges.len()
            invariant
                chart.wf(),
                rank@.len() == chart.nodes@.len(),
                across@.len() == chart.nodes@.len(),
                band < last,
                k <= chart.edges@.len(),
                members@.len() == los@.len(),
                los@.len() == his@.len(),
                keys@.len() == los@.len(),
                forall|j: int| 0 <= j < members@.len() ==> #[trigger] members@[j] < chart.edges@.len(),
            decreases chart.edges.len() - k,
        {
            let e = &chart.edges[k];
            if rank[e.from] == band && rank[e.to] == band + 1 && !contains(diverted, k) {
                let (f, t) = (across[e.from], across[e.to]);
                members.push(k);
                keys.push(if f < t { f as i128 } else { t as i128 });
                los.push(if f < t { f } else { t });
                his.push(if f < t { t } else { f });
            }
            k = k + 1;
        }
        let order = sort_by_key(&keys);
        // Sweep, absorbing every run that reaches the one before it; each
        // joined run is a stretch of the sorted order.
        let mut g: usize = 0;
        while g < order.len()
            invariant
                chart.wf(),
                members@.len() == los@.len(),
                los@.len() == his@.len(),
                order@.len() == los@.len(),
                forall|j: int| 0 <= j < order@.len() ==> #[trigger] order@[j] < los@.len(),
                forall|j: int| 0 <= j < members@.len() ==> #[trigger] members@[j] < chart.edges@.len(),
                g <= order@.len(),
            decreases order.len() - g,
        {
            let mut end = g + 1;
            let mut hi = his[order[g]];
            while end < order.len() && los[order[end]] <= hi
                invariant
                    g < end <= order@.len(),
                    order@.len() == los@.len(),
                    los@.len() == his@.len(),
                    forall|j: int| 0 <= j < order@.len() ==> #[trigger] order@[j] < los@.len(),
                decreases order.len() - end,
            {
                if his[order[end]] > hi {
                    hi = his[order[end]];
                }
                end = end + 1;
            }
            let mut a = g;
            while a < end
                invariant
                    chart.wf(),
                    g <= a <= end <= order@.len(),
                    order@.len() == members@.len(),
                    forall|j: int| 0 <= j < order@.len() ==> #[trigger] order@[j] < members@.len(),
                    forall|j: int| 0 <= j < members@.len() ==> #[trigger] members@[j] < chart.edges@.len(),
                decreases end - a,
            {
                let from = chart.edges[members[order[a]]].from;
                let mut b = g;
                while b < end
                    invariant
                        chart.wf(),
                        g <= b <= end <= order@.len(),
                        order@.len() == members@.len(),
                        forall|j: int| 0 <= j < order@.len() ==> #[trigger] order@[j] < members@.len(),
                        forall|j: int| 0 <= j < members@.len() ==> #[trigger] members@[j] < chart.edges@.len(),
                    decreases end - b,
                {
                    let to = chart.edges[members[order[b]]].to;
                    if !has_edge(chart, from, to) {
                        return false;
                    }
                    b = b + 1;
                }
                a = a + 1;
            }
            g = end;
        }
        band = band + 1;
    }
    true
}

} // verus!

verus! {

/// The widths of the first `k` boxes of `ns`, added up.
pub open spec fn boxes_width(ns: Seq<usize>, box_w: Seq<usize>, k: int) -> int
    decreases k,
{
    if k <= 0 { 0 } else { boxes_width(ns, box_w, k - 1) + box_w[ns[k - 1] as int] }
}

/// The columns a rank takes across the canvas: its boxes and a gap between
/// two boxes.
pub open spec fn rank_width(ns: Seq<usize>, box_w: Seq<usize>) -> int {
    boxes_width(ns, box_w, ns.len() as int) + if ns.len() > 0 { GAP * (ns.len() - 1) } else { 0 }
}

/// The widest of the first `q` ranks, zero for none.
pub open spec fn widest(by_rank: Seq<Vec<usize>>, box_w: Seq<usize>, q: int) -> int
    decreases q,
{
    if q <= 0 {
        0
    } else {
        let m = widest(by_rank, box_w, q - 1);
        let w = rank_width(by_rank[q - 1]@, box_w);
        if w > m { w } else { m }
    }
}

/// `starts` with the boxes of `ns` from the `k`th on placed left to right,
/// the `k`th at column `x`, each a gap after the one before.
pub open spec fn rank_place_across(starts: Seq<usize>, ns: Seq<usize>, box_w: Seq<usize>, x: int, k: int) -> Seq<usize>
    decreases ns.len() - k,
{
    if 0 <= k < ns.len() {
        rank_place_across(starts.update(ns[k] as int, x as usize), ns, box_w, x + box_w[ns[k] as int] + GAP, k + 1)
    } else {
        starts
    }
}

/// Where the boxes of the first `q` ranks start across the canvas: each
/// rank centred in the widest rank's width; zero for a box in none of them.
pub open spec fn columns_placed(by_rank: Seq<Vec<usize>>, box_w: Seq<usize>, n: nat, q: int) -> Seq<usize>
    decreases q,
{
    if q <= 0 {
        Seq::new(n, |i: int| 0usize)
    } else {
        let w = rank_width(by_rank[q - 1]@, box_w);
        rank_place_across(
            columns_placed(by_rank, box_w, n, q - 1),
            by_rank[q - 1]@,
            box_w,
            (widest(by_rank, box_w, by_rank.len() as int) - w) / 2,
            0,
        )
    }
}

/// Whether every rank's width, and every rank counted from where it is
/// centred with a gap after its last box, fit in `usize`.
pub open spec fn columns_fit(by_rank: Seq<Vec<usize>>, box_w: Seq<usize>) -> bool {
    &&& forall|q: int| 0 <= q < by_rank.len() ==> rank_width((#[trigger] by_rank[q])@, box_w) <= usize::MAX
    &&& forall|q: int| 0 <= q < by_rank.len() && by_rank[q]@.len() > 0 ==>
        (widest(by_rank, box_w, by_rank.len() as int) - rank_width((#[trigger] by_rank[q])@, box_w)) / 2
            + boxes_width(by_rank[q]@, box_w, by_rank[q]@.len() as int) + GAP * by_rank[q]@.len() <= usize::MAX
}

proof fn lemma_boxes_width_grows(ns: Seq<usize>, box_w: Seq<usize>, j: int, k: int)
    requires
        0 <= j <= k,
    ensures
        boxes_width(ns, box_w, j) <= boxes_width(ns, box_w, k),
    decreases k - j,
{
    if j < k {
        lemma_boxes_width_grows(ns, box_w, j, k - 1);
    }
}

/// Where each box starts across the canvas, and how wide the widest rank is.
/// The widest rank sets the canvas width and every other rank is centred in
/// it. `None` when the widths do not fit in `usize`.
pub fn column_starts(by_rank: &Vec<Vec<usize>>, n: usize, box_w: &Vec<usize>) -> (r: Option<(Vec<usize>, usize)>)
    requires
        box_w@.len() == n,
        forall|q: int, k: int|
            0 <= q < by_rank@.len() && 0 <= k < by_rank@[q]@.len() ==> #[trigger] by_rank@[q]@[k] < n,
    ensures
        r matches Some((starts, _)) ==> starts@.len() == n,
        r is Some <==> columns_fit(by_rank@, box_w@),
        r matches Some((starts, content)) ==> content == widest(by_rank@, box_w@, by_rank@.len() as int)
            && starts@ == columns_placed(by_rank@, box_w@, n as nat, by_rank@.len() as int),
{
    let mut widths: Vec<usize> = Vec::new();
    let mut content: usize = 0;
    let mut q: usize = 0;
    while q < by_rank.len()
        invariant
            q <= by_rank@.len(),
            widths@.len() == q,
            box_w@.len() == n,
            forall|j: int| 0 <= j < q ==> #[trigger] widths@[j] <= content,
            forall|j: int| 0 <= j < q ==> #[trigger] widths@[j] == rank_width(by_rank@[j]@, box_w@),
            forall|j: int| 0 <= j < q ==> rank_width((#[trigger] by_rank@[j])@, box_w@) <= usize::MAX,
            content == widest(by_rank@, box_w@, q as int),
            forall|a: int, k: int|
                0 <= a < by_rank@.len() && 0 <= k < by_rank@[a]@.len() ==> #[trigger] by_rank@[a]@[k] < n,
        decreases by_rank.len() - q,
    {
        let ns = &by_rank[q];
        let mut w: usize = 0;
        let mut k: usize = 0;
        while k < ns.len()
            invariant
                k <= ns@.len(),
                box_w@.len() == n,
                ns == by_rank@[q as int],
                q < by_rank@.len(),
                w == boxes_width(ns@, box_w@, k as int),
                forall|a: int, k2: int|
                    0 <= a < by_rank@.len() && 0 <= k2 < by_rank@[a]@.len() ==> #[trigger] by_rank@[a]@[k2] < n,
            decreases ns.len() - k,
        {
            w = match w.checked_add(box_w[ns[k]]) {
                Some(v) => v,
                None => {
                    proof {
                        lemma_boxes_width_grows(ns@, box_w@, k + 1, ns@.len() as int);
                        assert(rank_width(by_rank@[q as int]@, box_w@) > usize::MAX);
                        assert(!columns_fit(by_rank@, box_w@));
                    }
                    return None;
                },
            };
            k = k + 1;
        }
        let gaps = if ns.len() > 0 {
            match GAP.checked_mul(ns.len() - 1) {
                Some(v) => v,
                None => {
                    proof {
                        assert(rank_width(by_rank@[q as int]@, box_w@) > usize::MAX);
                        assert(!columns_fit(by_rank@, box_w@));
                    }
                    return None;
                },
            }
        } else {
            0
        };
        w = match w.checked_add(gaps) {
            Some(v) => v,
            None => {
                proof {
                    assert(rank_width(by_rank@[q as int]@, box_w@) > usize::MAX);
                    assert(!columns_fit(by_rank@, box_w@));
                }
                return None;
            },
        };
        if w > content {
            content = w;
        }
        widths.push(w);
        q = q + 1;
    }
    let mut starts: Vec<usize> = Vec::new();
    let mut i: usize = 0;
    while i < n
        invariant
            i <= n,
            starts@.len() == i,
            forall|j: int| 0 <= j < i ==> #[trigger] starts@[j] == 0,
        decreases n - i,
    {
        starts.push(0);
        i = i + 1;
    }
    proof {
        assert(starts@ =~= columns_placed(by_rank@, box_w@, n as nat, 0));
    }
    let mut q: usize = 0;
    while q < by_rank.len()
        invariant
            q <= by_rank@.len(),
            widths@.len() == by_rank@.len(),
            starts@.len() == n,
            box_w@.len() == n,
            content == widest(by_rank@, box_w@, by_rank@.len() as int),
            forall|j: int| 0 <= j < by_rank@.len() ==> #[trigger] widths@[j] <= content,
            forall|j: int| 0 <= j < by_rank@.len() ==> #[trigger] widths@[j] == rank_width(by_rank@[j]@, box_w@),
            forall|j: int| 0 <= j < by_rank@.len() ==> rank_width((#[trigger] by_rank@[j])@, box_w@) <= usize::MAX,
            forall|j: int| 0 <= j < q && by_rank@[j]@.len() > 0 ==>
                (content - rank_width((#[trigger] by_rank@[j])@, box_w@)) / 2
                    + boxes_width(by_rank@[j]@, box_w@, by_rank@[j]@.len() as int) + GAP * by_rank@[j]@.len() <= usize::MAX,
            starts@ == columns_placed(by_rank@, box_w@, n as nat, q as int),
            forall|a: int, k: int|
                0 <= a < by_rank@.len() && 0 <= k < by_rank@[a]@.len() ==> #[trigger] by_rank@[a]@[k] < n,
        decreases by_rank.len() - q,
    {
        let ns = &by_rank[q];
        let mut x = (content - widths[q]) / 2;
        let ghost x0 = x as int;
        let mut k: usize = 0;
        while k < ns.len()
            invariant
                k <= ns@.len(),
                starts@.len() == n,
                box_w@.len() == n,
                ns == by_rank@[q as int],
                q < by_rank@.len(),
                content == widest(by_rank@, box_w@, by_rank@.len() as int),
                widths@[q as int] == rank_width(by_rank@[q as int]@, box_w@),
                x0 == (content - widths@[q as int]) / 2,
                x == x0 + boxes_width(ns@, box_w@, k as int) + GAP * k,
                columns_placed(by_rank@, box_w@, n as nat, q + 1) == rank_place_across(starts@, ns@, box_w@, x as int, k as int),
                forall|a: int, k2: int|
                    0 <= a < by_rank@.len() && 0 <= k2 < by_rank@[a]@.len() ==> #[trigger] by_rank@[a]@[k2] < n,
            decreases ns.len() - k,
        {
            let i = ns[k];
            starts.set(i, x);
            x = match x.checked_add(box_w[i]) {
                Some(v) => match v.checked_add(GAP) {
                    Some(v) => v,
                    None => {
                        proof {
                            lemma_boxes_width_grows(ns@, box_w@, k + 1, ns@.len() as int);
                            assert(GAP * (k + 1) <= GAP * ns@.len());
                            assert((content - rank_width(by_rank@[q as int]@, box_w@)) / 2
                                + boxes_width(by_rank@[q as int]@, box_w@, by_rank@[q as int]@.len() as int)
                                + GAP * by_rank@[q as int]@.len() > usize::MAX);
                            assert(!columns_fit(by_rank@, box_w@));
                        }
                        return None;
                    },
                },
                None => {
                    proof {
                        lemma_boxes_width_grows(ns@, box_w@, k + 1, ns@.len() as int);
                        assert(GAP * (k + 1) <= GAP * ns@.len());
                        assert((content - rank_width(by_rank@[q as int]@, box_w@)) / 2
                            + boxes_width(by_rank@[q as int]@, box_w@, by_rank@[q as int]@.len() as int)
                            + GAP * by_rank@[q as int]@.len() > usize::MAX);
                        assert(!columns_fit(by_rank@, box_w@));
                    }
                    return None;
                },
            };
            k = k + 1;
        }
        q = q + 1;
    }
    Some((starts, content))
}

/// The rows a rank of `len` boxes takes down the canvas: three per box and
/// one between two boxes.
pub open spec fn rank_height(len: nat) -> int {
    if len > 0 { 4 * len - 1 } else { 0 }
}

/// The tallest of the first `q` ranks, zero for none.
pub open spec fn tallest(by_rank: Seq<Vec<usize>>, q: int) -> int
    decreases q,
{
    if q <= 0 {
        0
    } else {
        let m = tallest(by_rank, q - 1);
        let h = rank_height(by_rank[q - 1]@.len());
        if h > m { h } else { m }
    }
}

/// The height of the canvas's content: its tallest rank, or three rows
/// when there are no ranks.
pub open spec fn rows_content(by_rank: Seq<Vec<usize>>) -> int {
    if by_rank.len() == 0 { 3 } else { tallest(by_rank, by_rank.len() as int) }
}

/// `starts` with the boxes of `ns` from the `k`th on placed four rows
/// apart, the `k`th at row `y`.
pub open spec fn rank_place(starts: Seq<usize>, ns: Seq<usize>, y: int, k: int) -> Seq<usize>
    decreases ns.len() - k,
{
    if 0 <= k < ns.len() {
        rank_place(starts.update(ns[k] as int, y as usize), ns, y + 4, k + 1)
    } else {
        starts
    }
}

/// Where the boxes of the first `q` ranks start down the canvas: each rank
/// centred in the content's height, its boxes four rows apart; zero for a
/// box in none of them.
pub open spec fn rows_placed(by_rank: Seq<Vec<usize>>, n: nat, q: int) -> Seq<usize>
    decreases q,
{
    if q <= 0 {
        Seq::new(n, |i: int| 0usize)
    } else {
        let h = rank_height(by_rank[q - 1]@.len());
        rank_place(rows_placed(by_rank, n, q - 1), by_rank[q - 1]@, (rows_content(by_rank) - h) / 2, 0)
    }
}

/// Whether every rank's height, and every rank's rows counted from where it
/// is centred, fit in `usize`.
pub open spec fn rows_fit(by_rank: Seq<Vec<usize>>) -> bool {
    &&& forall|q: int| 0 <= q < by_rank.len() ==> rank_height((#[trigger] by_rank[q])@.len()) <= usize::MAX
    &&& forall|q: int| 0 <= q < by_rank.len() && by_rank[q]@.len() > 0 ==>
        (rows_content(by_rank) - rank_height((#[trigger] by_rank[q])@.len())) / 2 + 4 * by_rank[q]@.len() <= usize::MAX
}

/// Where each box starts down the canvas, and how tall the tallest rank is:
/// each rank is centred in that height, its boxes four rows apart. `None`
/// when the rows do not fit in `usize`.
pub fn row_starts(by_rank: &Vec<Vec<usize>>, n: usize) -> (r: Option<(Vec<usize>, usize)>)
    requires
        forall|q: int, k: int|
            0 <= q < by_rank@.len() && 0 <= k < by_rank@[q]@.len() ==> #[trigger] by_rank@[q]@[k] < n,
    ensures
        r matches Some((starts, _)) ==> starts@.len() == n,
        r is Some <==> rows_fit(by_rank@),
        r matches Some((starts, content)) ==> content == rows_content(by_rank@)
            && starts@ == rows_placed(by_rank@, n as nat, by_rank@.len() as int),
{
    let mut heights: Vec<usize> = Vec::new();
    let mut content: usize = 0;
    let mut q: usize = 0;
    while q < by_rank.len()
        invariant
            q <= by_rank@.len(),
            heights@.len() == q,
            forall|j: int| 0 <= j < q ==> #[trigger] heights@[j] <= content,
            forall|j: int| 0 <= j < q ==> #[trigger] heights@[j] == rank_height(by_rank@[j]@.len()),
            content == tallest(by_rank@, q as int),
            forall|j: int| 0 <= j < q ==> rank_height((#[trigger] by_rank@[j])@.len()) <= usize::MAX,
        decreases by_rank.len() - q,
    {
        let len = by_rank[q].len();
        let h = match len.checked_mul(3) {
            Some(v) => match v.checked_add(if len > 0 { len - 1 } else { 0 }) {
                Some(v) => v,
                None => {
                    proof {
                        assert(!rows_fit(by_rank@)) by {
                            assert(rank_height(by_rank@[q as int]@.len()) > usize::MAX);
                        }
                    }
                    return None;
                },
            },
            None => {
                proof {
                    assert(!rows_fit(by_rank@)) by {
                        assert(rank_height(by_rank@[q as int]@.len()) > usize::MAX);
                    }
                }
                return None;
            },
        };
        if h > content {
            content = h;
        }
        heights.push(h);
        q = q + 1;
    }
    if by_rank.len() == 0 {
        content = 3;
    }
    proof {
        assert(content == rows_content(by_rank@));
    }
    let mut starts: Vec<usize> = Vec::new();
    let mut i: usize = 0;
    while i < n
        invariant
            i <= n,
            starts@.len() == i,
            forall|j: int| 0 <= j < i ==> #[trigger] starts@[j] == 0,
        decreases n - i,
    {
        starts.push(0);
        i = i + 1;
    }
    proof {
        assert(starts@ =~= rows_placed(by_rank@, n as nat, 0));
    }
    let mut q: usize = 0;
    while q < by_rank.len()
        invariant
            q <= by_rank@.len(),
            heights@.len() == by_rank@.len(),
            starts@.len() == n,
            content == rows_content(by_rank@),
            forall|j: int| 0 <= j < by_rank@.len() ==> #[trigger] heights@[j] <= content,
            forall|j: int| 0 <= j < by_rank@.len() ==> #[trigger] heights@[j] == rank_height(by_rank@[j]@.len()),
            forall|j: int| 0 <= j < by_rank@.len() ==> rank_height((#[trigger] by_rank@[j])@.len()) <= usize::MAX,
            forall|j: int| 0 <= j < q && by_rank@[j]@.len() > 0 ==>
                (content - rank_height((#[trigger] by_rank@[j])@.len())) / 2 + 4 * by_rank@[j]@.len() <= usize::MAX,
            starts@ == rows_placed(by_rank@, n as nat, q as int),
            forall|a: int, k: int|
                0 <= a < by_rank@.len() && 0 <= k < by_rank@[a]@.len() ==> #[trigger] by_rank@[a]@[k] < n,
        decreases by_rank.len() - q,
    {
        let ns = &by_rank[q];
        let mut y = (content - heights[q]) / 2;
        let ghost y0 = y as int;
        let mut k: usize = 0;
        while k < ns.len()
            invariant
                k <= ns@.len(),
                starts@.len() == n,
                ns == by_rank@[q as int],
                q < by_rank@.len(),
                y == y0 + 4 * k,
                y0 == (content - heights@[q as int]) / 2,
                content == rows_content(by_rank@),
                heights@[q as int] == rank_height(by_rank@[q as int]@.len()),
                rows_placed(by_rank@, n as nat, q + 1) == rank_place(starts@, ns@, y as int, k as int),
                forall|a: int, k2: int|
                    0 <= a < by_rank@.len() && 0 <= k2 < by_rank@[a]@.len() ==> #[trigger] by_rank@[a]@[k2] < n,
            decreases ns.len() - k,
        {
            starts.set(ns[k], y);
            y = match y.checked_add(4) {
                Some(v) => v,
                None => {
                    proof {
                        assert(y0 + 4 * ns@.len() > usize::MAX) by (nonlinear_arith)
                            requires
                                y0 + 4 * k + 4 > usize::MAX,
                                k < ns@.len(),
                        ;
                        assert(by_rank@[q as int]@.len() > 0);
                        assert((rows_content(by_rank@) - rank_height(by_rank@[q as int]@.len())) / 2
                            + 4 * by_rank@[q as int]@.len() > usize::MAX);
                        assert(!rows_fit(by_rank@));
                    }
                    return None;
                },
            };
            k = k + 1;
        }
        proof {
            if ns@.len() > 0 {
                assert(y0 + 4 * ns@.len() <= usize::MAX);
            }
            assert(starts@ == rows_placed(by_rank@, n as nat, q + 1));
        }
        q = q + 1;
    }
    Some((starts, content))
}

pub fn centres(
    chart: &Flowchart,
    order: &Vec<Vec<usize>>,
    box_w: &Vec<usize>,
) -> (r: Option<Vec<usize>>)
    requires
        box_w@.len() == chart.nodes@.len(),
        forall|q: int, k: int|
            0 <= q < order@.len() && 0 <= k < order@[q]@.len() ==> #[trigger] order@[q]@[k] < chart.nodes@.len(),
    ensures
        r matches Some(c) ==> c@.len() == chart.nodes@.len(),
        r is Some <==> centres_fit(*chart, order@, box_w@),
        r matches Some(c) ==> forall|i: int|
            0 <= i < chart.nodes@.len() ==> #[trigger] c@[i] == starts_or_none(*chart, order@, box_w@)[i] + centre_offset(*chart, box_w@, i),
{
    let n = chart.nodes.len();
    let starts = match chart.direction {
        Direction::TopDown => match column_starts(order, n, box_w) {
            Some((s, _)) => s,
            None => return None,
        },
        Direction::LeftRight => match row_starts(order, n) {
            Some((s, _)) => s,
            None => return None,
        },
    };
    let mut out: Vec<usize> = Vec::new();
    let mut i: usize = 0;
    while i < n
        invariant
            i <= n,
            n == chart.nodes@.len(),
            starts@.len() == n,
            box_w@.len() == n,
            out@.len() == i,
            box_starts(*chart, order@, box_w@) == Some(starts@),
            starts_or_none(*chart, order@, box_w@) == starts@,
            forall|j: int| 0 <= j < i ==> #[trigger] out@[j] == starts@[j] + centre_offset(*chart, box_w@, j),
        decreases n - i,
    {
        let off = match chart.direction {
            Direction::TopDown => box_w[i] / 2,
            Direction::LeftRight => 1,
        };
        out.push(
            match starts[i].checked_add(off) {
                Some(v) => v,
                None => {
                    proof {
                        assert(starts_or_none(*chart, order@, box_w@) == starts@);
                        assert(starts_or_none(*chart, order@, box_w@)[i as int] + centre_offset(*chart, box_w@, i as int) > usize::MAX);
                        assert(!centres_fit(*chart, order@, box_w@));
                    }
                    return None;
                },
            },
        );
        i = i + 1;
    }
    proof {
        assert(starts_or_none(*chart, order@, box_w@) == starts@);
        assert forall|j: int| 0 <= j < chart.nodes@.len() implies #[trigger] starts_or_none(*chart, order@, box_w@)[j]
            + centre_offset(*chart, box_w@, j) <= usize::MAX by {
            assert(out@[j] == starts@[j] + centre_offset(*chart, box_w@, j));
        }
    }
    Some(out)
}

/// Where every box starts along the axis its rank runs across, as
/// `column_starts` or `row_starts` gives it for the chart's direction.
pub open spec fn box_starts(chart: Flowchart, order: Seq<Vec<usize>>, box_w: Seq<usize>) -> Option<Seq<usize>> {
    match chart.direction {
        Direction::TopDown => if columns_fit(order, box_w) {
            Some(columns_placed(order, box_w, chart.nodes@.len(), order.len() as int))
        } else {
            None
        },
        Direction::LeftRight => if rows_fit(order) {
            Some(rows_placed(order, chart.nodes@.len(), order.len() as int))
        } else {
            None
        },
    }
}

/// The boxes' starts, empty when they do not fit.
pub open spec fn starts_or_none(chart: Flowchart, order: Seq<Vec<usize>>, box_w: Seq<usize>) -> Seq<usize> {
    match box_starts(chart, order, box_w) {
        Some(st) => st,
        None => Seq::empty(),
    }
}

/// Whether the boxes' starts, and each box's centre counted from its start,
/// fit in `usize`.
pub open spec fn centres_fit(chart: Flowchart, order: Seq<Vec<usize>>, box_w: Seq<usize>) -> bool {
    &&& box_starts(chart, order, box_w) is Some
    &&& forall|i: int| 0 <= i < chart.nodes@.len() ==>
        #[trigger] starts_or_none(chart, order, box_w)[i] + centre_offset(chart, box_w, i) <= usize::MAX
}

/// How far a box's centre is from its start: half its width across a
/// top-down chart, its label row down a left-right one.
pub open spec fn centre_offset(chart: Flowchart, box_w: Seq<usize>, i: int) -> int {
    match chart.direction {
        Direction::TopDown => (box_w[i] / 2) as int,
        Direction::LeftRight => 1,
    }
}

/// Order rank `r` by where each of its nodes' neighbours in the rank above
/// (or below) sit, the mean of their places kept as a fraction; a node with
/// no neighbours there keeps its own place.
pub fn sort_by_neighbours(
    chart: &Flowchart,
    rank: &Vec<usize>,
    order: &mut Vec<Vec<usize>>,
    r: usize,
    upwards: bool,
)
    requires
        chart.wf(),
        order_ok(chart.nodes@.len() as nat, rank@, old(order)@),
        r < old(order)@.len(),
        upwards ==> r >= 1,
        !upwards ==> r + 1 < old(order)@.len(),
    ensures
        order_ok(chart.nodes@.len() as nat, rank@, final(order)@),
        final(order)@.len() == old(order)@.len(),
{
    let _len = order.len();
    let other = if upwards { r - 1 } else { r + 1 };
    let row = order[r].clone();
    let mut nums: Vec<usize> = Vec::new();
    let mut dens: Vec<usize> = Vec::new();
    let mut at: usize = 0;
    while at < row.len()
        invariant
            chart.wf(),
            order_ok(chart.nodes@.len() as nat, rank@, order@),
            other < order@.len(),
            at <= row@.len(),
            nums@.len() == at,
            dens@.len() == at,
        decreases row.len() - at,
    {
        let i = row[at];
        let mut sum: usize = 0;
        let mut count: usize = 0;
        let mut k: usize = 0;
        while k < chart.edges.len()
            invariant
                chart.wf(),
                order_ok(chart.nodes@.len() as nat, rank@, order@),
                other < order@.len(),
                k <= chart.edges@.len(),
                count <= k,
            decreases chart.edges.len() - k,
        {
            let e = &chart.edges[k];
            let (near, far) = if upwards { (e.to, e.from) } else { (e.from, e.to) };
            if near == i && rank[far] == other {
                let up = &order[other];
                let mut p: usize = 0;
                while p < up.len() && up[p] != far
                    invariant
                        p <= up@.len(),
                    decreases up.len() - p,
                {
                    p = p + 1;
                }
                if p < up.len() {
                    sum = sum.saturating_add(p);
                    count = count + 1;
                }
            }
            k = k + 1;
        }
        if count == 0 {
            nums.push(at);
            dens.push(1);
        } else {
            nums.push(sum);
            dens.push(count);
        }
        at = at + 1;
    }
    let sorted = sort_by_fraction(&nums, &dens);
    let mut next: Vec<usize> = Vec::new();
    let mut k: usize = 0;
    while k < sorted.len()
        invariant
            k <= sorted@.len(),
            sorted@.len() == row@.len(),
            forall|j: int| 0 <= j < sorted@.len() ==> #[trigger] sorted@[j] < row@.len(),
            forall|j: int| 0 <= j < row@.len() ==> #[trigger] row@[j] < chart.nodes@.len(),
            forall|j: int| 0 <= j < next@.len() ==> #[trigger] next@[j] < chart.nodes@.len(),
        decreases sorted.len() - k,
    {
        next.push(row[sorted[k]]);
        k = k + 1;
    }
    order.set(r, next);
}

/// Whether two orders are the same.
pub fn same_order(a: &Vec<Vec<usize>>, b: &Vec<Vec<usize>>) -> (r: bool)
    ensures
        r == orders_equal(a@, b@),
{
    if a.len() != b.len() {
        return false;
    }
    let mut q: usize = 0;
    while q < a.len()
        invariant
            q <= a@.len(),
            a@.len() == b@.len(),
            forall|j: int| 0 <= j < q ==> (#[trigger] a@[j])@ == b@[j]@,
        decreases a.len() - q,
    {
        let (x, y) = (&a[q], &b[q]);
        if x.len() != y.len() {
            return false;
        }
        let mut k: usize = 0;
        while k < x.len()
            invariant
                k <= x@.len(),
                x@.len() == y@.len(),
                q < a@.len(),
                a@.len() == b@.len(),
                *x == a@[q as int],
                *y == b@[q as int],
                forall|j: int| 0 <= j < q ==> (#[trigger] a@[j])@ == b@[j]@,
                forall|j: int| 0 <= j < k ==> x@[j] == y@[j],
            decreases x.len() - k,
        {
            if x[k] != y[k] {
                proof {
                    assert(a@[q as int]@[k as int] != b@[q as int]@[k as int]);
                }
                return false;
            }
            k = k + 1;
        }
        proof {
            assert(x@ =~= y@);
        }
        q = q + 1;
    }
    true
}

/// Whether two orders list the same boxes in every rank.
pub open spec fn orders_equal(a: Seq<Vec<usize>>, b: Seq<Vec<usize>>) -> bool {
    a.len() == b.len() && forall|q: int| 0 <= q < a.len() ==> (#[trigger] a[q])@ == b[q]@
}

/// Whether no two of `orders` list the same boxes in every rank.
pub open spec fn orders_distinct(orders: Seq<Vec<Vec<usize>>>) -> bool {
    forall|a: int, b: int| 0 <= a < b < orders.len() ==> !orders_equal((#[trigger] orders[a])@, (#[trigger] orders[b])@)
}

/// Whether `orders` holds `order`.
fn has_order(orders: &Vec<Vec<Vec<usize>>>, order: &Vec<Vec<usize>>) -> (r: bool)
    ensures
        r == exists|k: int| 0 <= k < orders@.len() && orders_equal((#[trigger] orders@[k])@, order@),
{
    let mut k: usize = 0;
    while k < orders.len()
        invariant
            k <= orders@.len(),
            forall|j: int| 0 <= j < k ==> !orders_equal((#[trigger] orders@[j])@, order@),
        decreases orders.len() - k,
    {
        if same_order(&orders[k], order) {
            return true;
        }
        k = k + 1;
    }
    false
}

/// A copy of an order.
fn copy_order(order: &Vec<Vec<usize>>) -> (r: Vec<Vec<usize>>)
    ensures
        r@.len() == order@.len(),
        forall|q: int| 0 <= q < order@.len() ==> (#[trigger] r@[q])@ == order@[q]@,
{
    let mut out: Vec<Vec<usize>> = Vec::new();
    let mut q: usize = 0;
    while q < order.len()
        invariant
            q <= order@.len(),
            out@.len() == q,
            forall|j: int| 0 <= j < q ==> (#[trigger] out@[j])@ == order@[j]@,
        decreases order.len() - q,
    {
        out.push(order[q].clone());
        q = q + 1;
    }
    out
}

/// One order with the ends of every edge that skips a rank moved to the end
/// of their ranks, the one place the road out to a lane is clear from.
pub fn roads_cleared(chart: &Flowchart, rank: &Vec<usize>, by_rank: &Vec<Vec<usize>>) -> (r: Vec<Vec<usize>>)
    requires
        chart.wf(),
        order_ok(chart.nodes@.len() as nat, rank@, by_rank@),
    ensures
        order_ok(chart.nodes@.len() as nat, rank@, r@),
        r@.len() == by_rank@.len(),
{
    let mut order = copy_order(by_rank);
    let none: Vec<usize> = Vec::new();
    let out = routed(chart, rank, &none);
    let mut k: usize = 0;
    while k < out.len()
        invariant
            chart.wf(),
            order_ok(chart.nodes@.len() as nat, rank@, order@),
            order@.len() == by_rank@.len(),
            k <= out@.len(),
            forall|j: int| 0 <= j < out@.len() ==> #[trigger] out@[j] < chart.edges@.len(),
        decreases out.len() - k,
    {
        let e = &chart.edges[out[k]];
        let ends = [e.from, e.to];
        let mut t: usize = 0;
        while t < 2
            invariant
                chart.wf(),
                order_ok(chart.nodes@.len() as nat, rank@, order@),
                order@.len() == by_rank@.len(),
                t <= 2,
                ends@[0] < chart.nodes@.len(),
                ends@[1] < chart.nodes@.len(),
            decreases 2 - t,
        {
            let node = ends[t];
            let q = rank[node];
            let row = &order[q];
            let mut kept: Vec<usize> = Vec::new();
            let mut p: usize = 0;
            while p < row.len()
                invariant
                    p <= row@.len(),
                    row == order@[q as int],
                    q < order@.len(),
                    order_ok(chart.nodes@.len() as nat, rank@, order@),
                    forall|j: int| 0 <= j < kept@.len() ==> #[trigger] kept@[j] < chart.nodes@.len(),
                decreases row.len() - p,
            {
                if row[p] != node {
                    kept.push(row[p]);
                }
                p = p + 1;
            }
            kept.push(node);
            order.set(q, kept);
            t = t + 1;
        }
        k = k + 1;
    }
    order
}

/// Candidate orders for the ranks: the document's own first, then sweeps
/// down, up and down again ordering each rank by its neighbours, then each of
/// those with the ends of rank-skipping edges moved to the ends of their ranks.
pub fn untangled(chart: &Flowchart, rank: &Vec<usize>, by_rank: &Vec<Vec<usize>>) -> (r: Vec<Vec<Vec<usize>>>)
    requires
        chart.wf(),
        order_ok(chart.nodes@.len() as nat, rank@, by_rank@),
    ensures
        forall|k: int| 0 <= k < r@.len() ==> order_ok(chart.nodes@.len() as nat, rank@, #[trigger] r@[k]@),
        r@.len() >= 1,
        orders_equal(r@[0]@, by_rank@),
        orders_distinct(r@),
{
    let mut orders: Vec<Vec<Vec<usize>>> = Vec::new();
    orders.push(copy_order(by_rank));
    proof {
        assert(orders_equal(orders@[0]@, by_rank@));
    }
    let mut order = copy_order(by_rank);
    let len = order.len();
    let mut pass: usize = 0;
    while pass < 3
        invariant
            chart.wf(),
            order_ok(chart.nodes@.len() as nat, rank@, order@),
            order@.len() == len,
            orders@.len() >= 1,
            orders_equal(orders@[0]@, by_rank@),
            orders_distinct(orders@),
            forall|k: int| 0 <= k < orders@.len() ==> order_ok(chart.nodes@.len() as nat, rank@, #[trigger] orders@[k]@),
        decreases 3 - pass,
    {
        if pass % 2 == 0 {
            let mut q: usize = 1;
            while q < len
                invariant
                    chart.wf(),
                    order_ok(chart.nodes@.len() as nat, rank@, order@),
                    order@.len() == len,
                    q >= 1,
                decreases len - q,
            {
                sort_by_neighbours(chart, rank, &mut order, q, true);
                q = q + 1;
            }
        } else {
            let mut q: usize = if len > 0 { len - 1 } else { 0 };
            while q > 0
                invariant
                    chart.wf(),
                    order_ok(chart.nodes@.len() as nat, rank@, order@),
                    order@.len() == len,
                    q < len || q == 0,
                decreases q,
            {
                sort_by_neighbours(chart, rank, &mut order, q - 1, false);
                q = q - 1;
            }
        }
        if !has_order(&orders, &order) {
            let copy = copy_order(&order);
            proof {
                assert(orders_equal(copy@, order@));
            }
            let ghost o0 = orders@;
            orders.push(copy);
            proof {
                assert(orders@[0] == o0[0]);
                assert forall|a: int, b: int| 0 <= a < b < orders@.len() implies !orders_equal(
                    (#[trigger] orders@[a])@, (#[trigger] orders@[b])@) by {
                    if b < o0.len() {
                        assert(orders@[a] == o0[a] && orders@[b] == o0[b]);
                    } else {
                        assert(orders@[a] == o0[a]);
                        assert(!orders_equal(o0[a]@, order@));
                        if orders_equal(orders@[a]@, orders@[b]@) {
                            assert forall|q: int| 0 <= q < o0[a]@.len() implies (#[trigger] o0[a]@[q])@ == order@[q]@ by {
                                assert(orders@[b]@[q]@ == order@[q]@);
                            }
                        }
                    }
                }
            }
        }
        pass = pass + 1;
    }
    let count = orders.len();
    let mut k: usize = 0;
    while k < count
        invariant
            chart.wf(),
            k <= count <= orders@.len(),
            orders@.len() >= 1,
            orders_equal(orders@[0]@, by_rank@),
            orders_distinct(orders@),
            forall|j: int| 0 <= j < orders@.len() ==> order_ok(chart.nodes@.len() as nat, rank@, #[trigger] orders@[j]@),
        decreases count - k,
    {
        let cleared = roads_cleared(chart, rank, &orders[k]);
        if !has_order(&orders, &cleared) {
            let ghost o0 = orders@;
            let ghost cv = cleared@;
            orders.push(cleared);
            proof {
                assert(orders@[0] == o0[0]);
                assert forall|a: int, b: int| 0 <= a < b < orders@.len() implies !orders_equal(
                    (#[trigger] orders@[a])@, (#[trigger] orders@[b])@) by {
                    if b < o0.len() {
                        assert(orders@[a] == o0[a] && orders@[b] == o0[b]);
                    } else {
                        assert(orders@[a] == o0[a]);
                        assert(orders@[b]@ == cv);
                        assert(!orders_equal(o0[a]@, cv));
                    }
                }
            }
        }
        k = k + 1;
    }
    orders
}

} // verus!

verus! {

/// A node's box on the canvas.
#[derive(Debug, Clone, Copy)]
pub struct NodeBox {
    pub x: usize,
    pub y: usize,
    pub w: usize,
    pub h: usize,
}

impl NodeBox {
    /// At least one cell each way, with room to address the cell past its
    /// far corner.
    pub open spec fn ok(&self) -> bool {
        self.w >= 1 && self.h >= 1 && self.x + self.w < usize::MAX && self.y + self.h < usize::MAX
    }

    pub fn center_x(&self) -> (r: usize)
        requires
            self.ok(),
        ensures
            r == self.x + self.w / 2,
            r < usize::MAX,
    {
        self.x + self.w / 2
    }

    pub fn bottom(&self) -> (r: usize)
        requires
            self.ok(),
        ensures
            r == self.y + self.h - 1,
            r + 1 < usize::MAX,
    {
        self.y + self.h - 1
    }

    pub fn right(&self) -> (r: usize)
        requires
            self.ok(),
        ensures
            r == self.x + self.w - 1,
            r + 1 < usize::MAX,
    {
        self.x + self.w - 1
    }

    pub fn center_y(&self) -> (r: usize)
        requires
            self.ok(),
        ensures
            r == self.y + self.h / 2,
            r < usize::MAX,
    {
        self.y + self.h / 2
    }
}

/// `cells` with `c` written at `(x, y)`, over as many columns as it takes.
pub open spec fn put_char(g: (Seq<Cell>, nat, nat), x: nat, y: nat, c: char, calc: WidthCalc) -> Seq<Cell> {
    crate::grid::put_cells(g.0, g.1, g.2, x, y, c, crate::grid::cell_cols(calc, c))
}

/// The top and bottom edges of a box, `─` in rows `top` and `bottom` from
/// column `x` up to, not including, `right`.
pub open spec fn box_edges(cells: Seq<Cell>, width: nat, height: nat, x: nat, right: nat, top: nat, bottom: nat, calc: WidthCalc) -> Seq<Cell>
    decreases right - x,
{
    if x < right {
        let a = put_char((cells, width, height), x, top, '─', calc);
        box_edges(put_char((a, width, height), x, bottom, '─', calc), width, height, x + 1, right, top, bottom, calc)
    } else {
        cells
    }
}

/// Row `row` blanked with spaces from column `x` up to, not including,
/// `right`.
pub open spec fn box_interior(cells: Seq<Cell>, width: nat, height: nat, x: nat, right: nat, row: nat, calc: WidthCalc) -> Seq<Cell>
    decreases right - x,
{
    if x < right {
        box_interior(put_char((cells, width, height), x, row, ' ', calc), width, height, x + 1, right, row, calc)
    } else {
        cells
    }
}

/// The corners of a shape: square for a plain box, round otherwise.
pub open spec fn box_corners(shape: Shape) -> (char, char, char, char) {
    match shape {
        Shape::Rect => ('┌', '┐', '└', '┘'),
        _ => ('╭', '╮', '╰', '╯'),
    }
}

/// The sides of a shape: angle brackets for a decision, bars otherwise.
pub open spec fn box_sides(shape: Shape) -> (char, char) {
    match shape {
        Shape::Diamond => ('<', '>'),
        _ => ('│', '│'),
    }
}

/// A box drawn on `cells`: its corners, its top and bottom edges, its sides
/// on the row below the top, that row's interior cleared, and the label
/// written there two columns in.
pub open spec fn boxed(cells: Seq<Cell>, width: nat, height: nat, b: NodeBox, label: Seq<char>, shape: Shape, calc: WidthCalc) -> Seq<Cell> {
    let (tl, tr, bl, br) = box_corners(shape);
    let (left, right) = box_sides(shape);
    let r = (b.x + b.w - 1) as nat;
    let bt = (b.y + b.h - 1) as nat;
    let c1 = put_char((cells, width, height), b.x as nat, b.y as nat, tl, calc);
    let c2 = put_char((c1, width, height), r, b.y as nat, tr, calc);
    let c3 = put_char((c2, width, height), b.x as nat, bt, bl, calc);
    let c4 = put_char((c3, width, height), r, bt, br, calc);
    let c5 = box_edges(c4, width, height, (b.x + 1) as nat, r, b.y as nat, bt, calc);
    let c6 = put_char((c5, width, height), b.x as nat, (b.y + 1) as nat, left, calc);
    let c7 = put_char((c6, width, height), r, (b.y + 1) as nat, right, calc);
    let c8 = box_interior(c7, width, height, (b.x + 1) as nat, r, (b.y + 1) as nat, calc);
    let lx = if b.x + 2 <= usize::MAX { (b.x + 2) as nat } else { usize::MAX as nat };
    crate::grid::text_from(c8, width, height, lx, (b.y + 1) as nat, label, 0, calc)
}

/// Draw a node's box with its label. A decision node is marked by angle
/// brackets, since a real lozenge cannot be drawn on a character grid.
pub fn draw_box(grid: &mut Grid, b: &NodeBox, label: &str, shape: Shape, calc: &WidthCalc)
    requires
        old(grid).wf(),
        b.ok(),
    ensures
        final(grid).wf(),
        final(grid).width == old(grid).width,
        final(grid).height == old(grid).height,
        final(grid).cells@ == boxed(old(grid).cells@, old(grid).width as nat, old(grid).height as nat, *b, label@, shape, *calc),
{
    let (tl, tr, bl, br) = match shape {
        Shape::Rect => ('┌', '┐', '└', '┘'),
        _ => ('╭', '╮', '╰', '╯'),
    };
    let (left, right) = match shape {
        Shape::Diamond => ('<', '>'),
        _ => ('│', '│'),
    };
    let ghost wd = grid.width as nat;
    let ghost ht = grid.height as nat;
    let (r, bt) = (b.right(), b.bottom());
    grid.put(b.x, b.y, tl, calc);
    grid.put(r, b.y, tr, calc);
    grid.put(b.x, bt, bl, calc);
    grid.put(r, bt, br, calc);
    let ghost c4 = grid.cells@;
    let mut x = b.x + 1;
    while x < r
        invariant
            grid.wf(),
            grid.width == old(grid).width,
            grid.height == old(grid).height,
            wd == grid.width,
            ht == grid.height,
            b.x + 1 <= x,
            box_edges(c4, wd, ht, (b.x + 1) as nat, r as nat, b.y as nat, bt as nat, *calc)
                == box_edges(grid.cells@, wd, ht, x as nat, r as nat, b.y as nat, bt as nat, *calc),
        decreases r - x,
    {
        grid.put(x, b.y, '─', calc);
        grid.put(x, bt, '─', calc);
        x = x + 1;
    }
    grid.put(b.x, b.y + 1, left, calc);
    grid.put(r, b.y + 1, right, calc);
    let ghost c7 = grid.cells@;
    // Clear the interior first: a sequence-diagram note is drawn over the
    // lifelines it spans, and they would otherwise show through the label.
    let mut x = b.x + 1;
    while x < r
        invariant
            grid.wf(),
            grid.width == old(grid).width,
            grid.height == old(grid).height,
            wd == grid.width,
            ht == grid.height,
            b.ok(),
            b.x + 1 <= x,
            box_interior(c7, wd, ht, (b.x + 1) as nat, r as nat, (b.y + 1) as nat, *calc)
                == box_interior(grid.cells@, wd, ht, x as nat, r as nat, (b.y + 1) as nat, *calc),
        decreases r - x,
    {
        grid.put(x, b.y + 1, ' ', calc);
        x = x + 1;
    }
    grid.text(b.x.saturating_add(2), b.y + 1, label, calc);
}

/// Where an edge's label starts on the row above the bus: beside whichever
/// of its edge's columns is that edge's alone, on the far side from the other
/// end. Signed, because a label left of the leftmost column falls off the
/// canvas, and how far it does is how much the canvas is widened to hold it.
pub fn label_start(fx: usize, tx: usize, w: usize, shared_child: bool) -> (r: i128)
    ensures
        r == (if !shared_child && tx > fx {
            tx + 1
        } else if shared_child && tx <= fx {
            fx + 1
        } else {
            fx - w - 1
        }),
{
    if !shared_child && tx > fx {
        tx as i128 + 1
    } else if shared_child && tx <= fx {
        fx as i128 + 1
    } else {
        fx as i128 - w as i128 - 1
    }
}

/// Which end of a sideways run a label hangs at: the arrowhead's end unless
/// several edges arrive at one box, and the other way round in a reversed
/// chart.
pub fn label_at_left(reversed: bool, parents: usize, children: usize) -> (r: bool)
    ensures
        r == (if reversed {
            !(children > 1 && parents == 1)
        } else {
            parents > 1 && children == 1
        }),
{
    if reversed {
        !(children > 1 && parents == 1)
    } else {
        parents > 1 && children == 1
    }
}

/// A non-negative column from a signed one.
fn to_col(v: i128) -> (r: usize)
    ensures
        v <= 0 ==> r == 0,
        0 < v <= usize::MAX ==> r == v,
{
    if v <= 0 {
        0
    } else if v > usize::MAX as i128 {
        usize::MAX
    } else {
        v as usize
    }
}

/// Whether an edge is drawn on its band: it joins adjacent ranks and was not
/// taken off to be routed round the outside.
pub fn on_band(chart: &Flowchart, rank: &Vec<usize>, diverted: &Vec<usize>, i: usize) -> (r: bool)
    requires
        chart.wf(),
        rank@.len() == chart.nodes@.len(),
        i < chart.edges@.len(),
    ensures
        r == (rank@[chart.edges@[i as int].to as int] == rank@[chart.edges@[i as int].from as int] + 1
            && !diverted@.contains(i)),
{
    let e = &chart.edges[i];
    let (f, t) = (rank[e.from], rank[e.to]);
    t > f && t - f == 1 && !contains(diverted, i)
}

/// The width of an edge's label, zero when it has none.
fn label_width(edge: &Edge, calc: &WidthCalc) -> usize {
    match &edge.label {
        Some(l) => calc.str(l.as_str()),
        None => 0,
    }
}

/// How many rows above the bus each edge's label sits: the lowest row on
/// which it does not overlap a label of its band already placed, taking the
/// labels in order of where they start, with one blank column kept between
/// neighbours.
pub fn label_levels(
    chart: &Flowchart,
    boxes: &Vec<NodeBox>,
    rank: &Vec<usize>,
    diverted: &Vec<usize>,
    parents: &Vec<usize>,
    children: &Vec<usize>,
    calc: &WidthCalc,
) -> (r: Vec<usize>)
    requires
        chart.wf(),
        rank@.len() == chart.nodes@.len(),
        boxes@.len() == chart.nodes@.len(),
        parents@.len() == chart.nodes@.len(),
        children@.len() == chart.nodes@.len(),
        forall|i: int| 0 <= i < boxes@.len() ==> (#[trigger] boxes@[i]).ok(),
    ensures
        r@.len() == chart.edges@.len(),
{
    let mut level: Vec<usize> = Vec::new();
    let mut ids: Vec<usize> = Vec::new();
    let mut starts: Vec<i128> = Vec::new();
    let mut ends: Vec<i128> = Vec::new();
    let mut i: usize = 0;
    while i < chart.edges.len()
        invariant
            chart.wf(),
            rank@.len() == chart.nodes@.len(),
            boxes@.len() == chart.nodes@.len(),
            parents@.len() == chart.nodes@.len(),
            children@.len() == chart.nodes@.len(),
            forall|j: int| 0 <= j < boxes@.len() ==> (#[trigger] boxes@[j]).ok(),
            i <= chart.edges@.len(),
            level@.len() == i,
            ids@.len() == starts@.len(),
            starts@.len() == ends@.len(),
            forall|j: int| 0 <= j < ids@.len() ==> #[trigger] ids@[j] < chart.edges@.len(),
            forall|j: int| 0 <= j < starts@.len() ==> -0x1_0000_0000_0000_0000_0 <= #[trigger] starts@[j] <= 0x1_0000_0000_0000_0000_0,
        decreases chart.edges.len() - i,
    {
        level.push(0);
        let edge = &chart.edges[i];
        if edge.label.is_some() && on_band(chart, rank, diverted, i) {
            let w = label_width(edge, calc);
            let (fx, tx) = (boxes[edge.from].center_x(), boxes[edge.to].center_x());
            let shared = parents[edge.to] > 1 && children[edge.from] == 1;
            let start = label_start(fx, tx, w, shared);
            ids.push(i);
            starts.push(start);
            ends.push(start + w as i128 + 1);
        }
        i = i + 1;
    }
    let order = sort_by_key(&starts);
    let mut placed_band: Vec<usize> = Vec::new();
    let mut placed_level: Vec<usize> = Vec::new();
    let mut placed_start: Vec<i128> = Vec::new();
    let mut placed_end: Vec<i128> = Vec::new();
    let mut k: usize = 0;
    while k < order.len()
        invariant
            chart.wf(),
            rank@.len() == chart.nodes@.len(),
            level@.len() == chart.edges@.len(),
            order@.len() == ids@.len(),
            ids@.len() == starts@.len(),
            starts@.len() == ends@.len(),
            forall|j: int| 0 <= j < order@.len() ==> #[trigger] order@[j] < ids@.len(),
            forall|j: int| 0 <= j < ids@.len() ==> #[trigger] ids@[j] < chart.edges@.len(),
            placed_band@.len() == placed_level@.len(),
            placed_level@.len() == placed_start@.len(),
            placed_start@.len() == placed_end@.len(),
        decreases order.len() - k,
    {
        let j = order[k];
        let (i, start, end) = (ids[j], starts[j], ends[j]);
        let band = rank[chart.edges[i].from];
        let mut lv: usize = 0;
        loop
            invariant
                placed_band@.len() == placed_level@.len(),
                placed_level@.len() == placed_start@.len(),
                placed_start@.len() == placed_end@.len(),
                lv <= placed_band@.len(),
            decreases placed_band@.len() - lv,
        {
            if lv == placed_band.len() {
                break;
            }
            let mut clash = false;
            let mut p: usize = 0;
            while p < placed_band.len()
                invariant
                    placed_band@.len() == placed_level@.len(),
                    placed_level@.len() == placed_start@.len(),
                    placed_start@.len() == placed_end@.len(),
                    p <= placed_band@.len(),
                decreases placed_band.len() - p,
            {
                if placed_band[p] == band && placed_level[p] == lv && start < placed_end[p]
                    && placed_start[p] < end {
                    clash = true;
                }
                p = p + 1;
            }
            if !clash {
                break;
            }
            lv = lv + 1;
        }
        level.set(i, lv);
        placed_band.push(band);
        placed_level.push(lv);
        placed_start.push(start);
        placed_end.push(end);
        k = k + 1;
    }
    level
}

} // verus!

verus! {

/// Every box is well formed.
pub open spec fn boxes_ok(boxes: Seq<NodeBox>) -> bool {
    forall|i: int| 0 <= i < boxes.len() ==> (#[trigger] boxes[i]).ok()
}

/// The distinct values of `v`, ascending.
fn sorted_unique(v: &Vec<usize>) -> (r: Vec<usize>)
    ensures
        forall|k: int| 0 <= k < r@.len() ==> v@.contains(#[trigger] r@[k]),
        r@.len() <= v@.len(),
        v@.len() > 0 ==> r@.len() > 0,
{
    let mut keys: Vec<i128> = Vec::new();
    let mut k: usize = 0;
    while k < v.len()
        invariant
            k <= v@.len(),
            keys@.len() == k,
        decreases v.len() - k,
    {
        keys.push(v[k] as i128);
        k = k + 1;
    }
    let order = sort_by_key(&keys);
    let mut out: Vec<usize> = Vec::new();
    let mut k: usize = 0;
    while k < order.len()
        invariant
            k <= order@.len(),
            order@.len() == v@.len(),
            out@.len() <= k,
            k > 0 ==> out@.len() > 0,
            forall|j: int| 0 <= j < order@.len() ==> #[trigger] order@[j] < v@.len(),
            forall|j: int| 0 <= j < out@.len() ==> v@.contains(#[trigger] out@[j]),
        decreases order.len() - k,
    {
        let x = v[order[k]];
        proof {
            assert(v@[order@[k as int] as int] == x);
        }
        if out.len() == 0 || out[out.len() - 1] != x {
            out.push(x);
        }
        k = k + 1;
    }
    out
}

/// Draw the band that carries one parent's edges down to the next rank. All
/// of a parent's children hang off a single horizontal bus, stated cell by
/// cell as the directions the line leaves in so that a column another
/// parent's bus also runs through carries both.
pub fn fan_out(
    grid: &mut Grid,
    from: &NodeBox,
    fan: &Vec<usize>,
    chart: &Flowchart,
    boxes: &Vec<NodeBox>,
    parents: &Vec<usize>,
    level: &Vec<usize>,
    calc: &WidthCalc,
)
    requires
        old(grid).wf(),
        chart.wf(),
        from.ok(),
        boxes@.len() == chart.nodes@.len(),
        parents@.len() == chart.nodes@.len(),
        level@.len() == chart.edges@.len(),
        boxes_ok(boxes@),
        forall|k: int| 0 <= k < fan@.len() ==> #[trigger] fan@[k] < chart.edges@.len(),
    ensures
        final(grid).wf(),
        final(grid).width == old(grid).width,
        final(grid).height == old(grid).height,
{
    if fan.len() == 0 {
        return;
    }
    let fx = from.center_x();
    let top = from.bottom() + 1;
    let bottom = boxes[chart.edges[fan[0]].to].y;
    if bottom <= top {
        // A child is always below its parent's band.
        return;
    }
    let mid = top + (bottom - top) / 2;
    let mut xs: Vec<usize> = Vec::new();
    let mut k: usize = 0;
    while k < fan.len()
        invariant
            chart.wf(),
            boxes@.len() == chart.nodes@.len(),
            boxes_ok(boxes@),
            forall|j: int| 0 <= j < fan@.len() ==> #[trigger] fan@[j] < chart.edges@.len(),
            k <= fan@.len(),
            xs@.len() == k,
        decreases fan.len() - k,
    {
        xs.push(boxes[chart.edges[fan[k]].to].center_x());
        k = k + 1;
    }
    let targets = sorted_unique(&xs);
    if targets.len() == 1 && targets[0] == fx {
        grid.vline(fx, top, bottom - 1, calc);
        // Said on the bus row even though the line through it needs no
        // saying: another parent's bus may reach this column, and it can only
        // draw the junction right if it sees this line passes through.
        grid.join(fx, mid, UP | DOWN, calc);
    } else {
        let mut lo = fx;
        let mut hi = fx;
        let mut k: usize = 0;
        while k < targets.len()
            invariant
                k <= targets@.len(),
                lo <= fx <= hi,
            decreases targets.len() - k,
        {
            if targets[k] < lo {
                lo = targets[k];
            }
            if targets[k] > hi {
                hi = targets[k];
            }
            k = k + 1;
        }
        grid.vline(fx, top, mid - 1, calc);
        let mut x = lo;
        loop
            invariant
                grid.wf(),
                grid.width == old(grid).width,
                grid.height == old(grid).height,
                lo <= x <= hi,
            decreases hi - x,
        {
            let down = contains(&targets, x);
            let dirs: u8 = (if x == fx { UP } else { 0 }) | (if down { DOWN } else { 0 }) | (if x > lo { LEFT } else { 0 }) | (if x < hi { RIGHT } else { 0 });
            grid.join(x, mid, dirs, calc);
            if x == hi {
                break;
            }
            x = x + 1;
        }
        let mut k: usize = 0;
        while k < targets.len()
            invariant
                grid.wf(),
                grid.width == old(grid).width,
                grid.height == old(grid).height,
                k <= targets@.len(),
                bottom > top,
                mid >= top,
            decreases targets.len() - k,
        {
            if mid < bottom - 1 {
                grid.vline(targets[k], mid + 1, bottom - 1, calc);
            }
            k = k + 1;
        }
    }
    if chart.reversed {
        grid.put(fx, top, '▲', calc);
    }
    let mut k: usize = 0;
    while k < fan.len()
        invariant
            grid.wf(),
            grid.width == old(grid).width,
            grid.height == old(grid).height,
            chart.wf(),
            boxes@.len() == chart.nodes@.len(),
            parents@.len() == chart.nodes@.len(),
            level@.len() == chart.edges@.len(),
            boxes_ok(boxes@),
            forall|j: int| 0 <= j < fan@.len() ==> #[trigger] fan@[j] < chart.edges@.len(),
            k <= fan@.len(),
        decreases fan.len() - k,
    {
        let i = fan[k];
        let edge = &chart.edges[i];
        let tx = boxes[edge.to].center_x();
        if !chart.reversed {
            grid.put(tx, bottom.saturating_sub(1), '▼', calc);
        }
        if let Some(label) = &edge.label {
            // Above the bus, outside the column this edge has to itself, on
            // the row the placement pass chose for it.
            let shared = parents[edge.to] > 1 && fan.len() == 1;
            let start = label_start(fx, tx, calc.str(label.as_str()), shared);
            let row = mid.saturating_sub(level[i].saturating_add(1));
            grid.text(to_col(start), row, label.as_str(), calc);
        }
        k = k + 1;
    }
}

/// An edge's label in a sideways chart, and which end of its run it hangs at.
pub struct EdgeLabel {
    pub at_left: bool,
    /// Columns already spoken for by labels sharing this one's row, measured
    /// from the end it hangs at.
    pub offset: usize,
    /// The widest row of labels at each end of this rank boundary. The bend
    /// between them has to clear both.
    pub reserved: (usize, usize),
}

/// Connect two boxes of adjacent columns with a run that turns in one column
/// between them, its corners stated as directions.
pub fn connect_right(
    grid: &mut Grid,
    from: &NodeBox,
    to: &NodeBox,
    text: Option<&str>,
    label: &EdgeLabel,
    reversed: bool,
    calc: &WidthCalc,
)
    requires
        old(grid).wf(),
        from.ok(),
        to.ok(),
    ensures
        final(grid).wf(),
        final(grid).width == old(grid).width,
        final(grid).height == old(grid).height,
        to.x < from.x + from.w ==> final(grid).cells@ == old(grid).cells@,
        to.x >= from.x + from.w ==> exists|s: Seq<Cell>|
            #[trigger] s.len() == old(grid).cells@.len() && final(grid).cells@ == (if reversed {
                crate::grid::put_cells(s, old(grid).width as nat, old(grid).height as nat, (from.x + from.w) as nat,
                    (from.y + from.h / 2) as nat, '◀', crate::grid::cell_cols(*calc, '◀'))
            } else {
                crate::grid::put_cells(s, old(grid).width as nat, old(grid).height as nat,
                    (if to.x >= 1 { to.x - 1 } else { 0 }) as nat, (to.y + to.h / 2) as nat, '▶',
                    crate::grid::cell_cols(*calc, '▶'))
            }),
{
    let (fy, ty) = (from.center_y(), to.center_y());
    let left = from.right() + 1;
    let right = to.x;
    if right < left {
        // The target column is always to the right.
        return;
    }
    let (hold_left, hold_right) = label.reserved;
    let mut mid = left + (right - left) / 2;
    if fy != ty {
        if hold_left > 0 {
            let m = left.saturating_add(hold_left).saturating_add(3);
            if m > mid {
                mid = m;
            }
        }
        if hold_right > 0 {
            let m = right.saturating_sub(hold_right.saturating_add(4));
            if m < mid {
                mid = m;
            }
        }
    }
    // Written before the lines: a line is drawn only where the canvas is
    // still blank, so it parts around the label rather than erasing it.
    if let Some(t) = text {
        let (x, y) = if label.at_left {
            (left.saturating_add(2).saturating_add(label.offset), fy)
        } else {
            let back = right.saturating_sub(
                calc.str(t).saturating_add(2).saturating_add(label.offset),
            );
            (if back > left + 1 { back } else { left + 1 }, ty)
        };
        grid.text(x, y, t, calc);
    }
    if fy == ty {
        let mut x = left;
        while x < right
            invariant
                grid.wf(),
                grid.width == old(grid).width,
                grid.height == old(grid).height,
            decreases right - x,
        {
            grid.join(x, fy, LEFT | RIGHT, calc);
            x = x + 1;
        }
    } else {
        let (leaving, arriving) = if ty > fy { (DOWN, UP) } else { (UP, DOWN) };
        if mid > left {
            grid.hline(left, mid - 1, fy, calc);
        }
        grid.join(mid, fy, LEFT | leaving, calc);
        let (a, b) = if fy < ty { (fy, ty) } else { (ty, fy) };
        grid.vline(mid, a + 1, b - 1, calc);
        grid.join(mid, ty, RIGHT | arriving, calc);
        grid.hline(mid.saturating_add(1), right.saturating_sub(1), ty, calc);
    }
    // A reversed chart's edges were turned round to place the ranks, so the
    // head goes back on the left, against the box the document called the
    // target.
    let ghost before = grid.cells@;
    if reversed {
        grid.put(left, fy, '◀', calc);
    } else {
        grid.put(right.saturating_sub(1), ty, '▶', calc);
    }
    proof {
        assert(before.len() == old(grid).cells@.len());
    }
}

/// Where an edge that skips a rank is routed, and where the lanes start.
pub struct Lane {
    pub at: usize,
    pub first: usize,
}

/// Route a sideways edge that skips a rank under the boxes between it and its
/// target, and back up.
#[verifier::rlimit(80)]
#[verifier::spinoff_prover]
pub fn route_lane_below(
    grid: &mut Grid,
    from: &NodeBox,
    to: &NodeBox,
    lane: &Lane,
    label: Option<&str>,
    reversed: bool,
    calc: &WidthCalc,
)
    requires
        old(grid).wf(),
        from.ok(),
        to.ok(),
    ensures
        final(grid).wf(),
        final(grid).width == old(grid).width,
        final(grid).height == old(grid).height,
        exists|s: Seq<Cell>|
            #[trigger] s.len() == old(grid).cells@.len() && final(grid).cells@ == crate::grid::put_cells(
                s,
                old(grid).width as nat,
                old(grid).height as nat,
                (if reversed { from.x + from.w / 2 } else { to.x + to.w / 2 }) as nat,
                (if reversed { from.y + from.h } else { to.y + to.h }) as nat,
                '▲',
                crate::grid::cell_cols(*calc, '▲'),
            ),
{
    let (fx, tx) = (from.center_x(), to.center_x());
    // The lane is clear of every box, so the label can sit in the line
    // itself, centred on the run, but past the far corner when the run is
    // too short for it.
    if let Some(l) = label {
        let (lo, hi) = if fx < tx { (fx, tx) } else { (tx, fx) };
        let w = calc.str(l);
        let x = if w <= hi - lo && 2 <= hi - lo - w {
            lo + (hi - lo - w) / 2
        } else {
            hi.saturating_add(2)
        };
        grid.text(x, lane.at, l, calc);
    }
    let cols = [(fx, from.bottom() + 1), (tx, to.bottom() + 1)];
    let mut c: usize = 0;
    while c < 2
        invariant
            grid.wf(),
            grid.width == old(grid).width,
            grid.height == old(grid).height,
            c <= 2,
        decreases 2 - c,
    {
        let (x, top) = cols[c];
        let mut y = top;
        while y < lane.at
            invariant
                grid.wf(),
                grid.width == old(grid).width,
                grid.height == old(grid).height,
            decreases lane.at - y,
        {
            if y < lane.first {
                grid.put_soft(x, y, '│', calc);
            } else {
                grid.cross(x, y, UP | DOWN, calc);
            }
            y = y + 1;
        }
        c = c + 1;
    }
    let mut x = fx + 1;
    while x < tx
        invariant
            grid.wf(),
            grid.width == old(grid).width,
            grid.height == old(grid).height,
        decreases tx - x,
    {
        grid.cross(x, lane.at, LEFT | RIGHT, calc);
        x = x + 1;
    }
    grid.join(fx, lane.at, UP | RIGHT, calc);
    grid.join(tx, lane.at, UP | LEFT, calc);
    let (hx, hy) = if reversed {
        (fx, from.bottom() + 1)
    } else {
        (tx, to.bottom() + 1)
    };
    let ghost before = grid.cells@;
    grid.put(hx, hy, '▲', calc);
    proof {
        assert(before.len() == old(grid).cells@.len());
    }
}

/// Route a top-down edge that skips a rank out to its own lane and back.
#[verifier::rlimit(80)]
#[verifier::spinoff_prover]
pub fn route_lane(
    grid: &mut Grid,
    from: &NodeBox,
    to: &NodeBox,
    lane: &Lane,
    label: Option<&str>,
    reversed: bool,
    calc: &WidthCalc,
)
    requires
        old(grid).wf(),
        from.ok(),
        to.ok(),
    ensures
        final(grid).wf(),
        final(grid).width == old(grid).width,
        final(grid).height == old(grid).height,
        to.y + to.h / 2 < from.y + from.h - 1 ==> final(grid).cells@ == old(grid).cells@,
        to.y + to.h / 2 >= from.y + from.h - 1 ==> exists|s: Seq<Cell>|
            #[trigger] s.len() == old(grid).cells@.len() && final(grid).cells@ == crate::grid::put_cells(
                s,
                old(grid).width as nat,
                old(grid).height as nat,
                (if reversed { from.x + from.w } else { to.x + to.w }) as nat,
                (if reversed { from.y + from.h - 1 } else { to.y + to.h / 2 }) as nat,
                '◀',
                crate::grid::cell_cols(*calc, '◀'),
            ),
{
    let start = from.bottom();
    let end = to.center_y();
    if end < start {
        // The target is always further down.
        return;
    }
    // Beside the lane, not in it: only the lane column is clear all the way.
    if let Some(l) = label {
        grid.text(lane.at.saturating_add(1), start + (end - start) / 2, l, calc);
    }
    let rows = [(start, from.right() + 1), (end, to.right() + 1)];
    let mut c: usize = 0;
    while c < 2
        invariant
            grid.wf(),
            grid.width == old(grid).width,
            grid.height == old(grid).height,
            c <= 2,
        decreases 2 - c,
    {
        let (y, x0) = rows[c];
        let mut x = x0;
        while x < lane.at
            invariant
                grid.wf(),
                grid.width == old(grid).width,
                grid.height == old(grid).height,
            decreases lane.at - x,
        {
            if x < lane.first {
                grid.put_soft(x, y, '─', calc);
            } else {
                grid.cross(x, y, LEFT | RIGHT, calc);
            }
            x = x + 1;
        }
        c = c + 1;
    }
    let mut y = start + 1;
    while y < end
        invariant
            grid.wf(),
            grid.width == old(grid).width,
            grid.height == old(grid).height,
        decreases end - y,
    {
        grid.cross(lane.at, y, UP | DOWN, calc);
        y = y + 1;
    }
    grid.join(lane.at, start, LEFT | DOWN, calc);
    grid.join(lane.at, end, UP | LEFT, calc);
    let (hx, hy) = if reversed {
        (from.right() + 1, start)
    } else {
        (to.right() + 1, end)
    };
    let ghost before = grid.cells@;
    grid.put(hx, hy, '◀', calc);
    proof {
        assert(before.len() == old(grid).cells@.len());
    }
}

} // verus!

verus! {

/// Whether every box is well formed, checked at run time.
fn check_boxes(boxes: &Vec<NodeBox>) -> (r: bool)
    ensures
        r == boxes_ok(boxes@),
{
    let mut k: usize = 0;
    while k < boxes.len()
        invariant
            k <= boxes@.len(),
            forall|j: int| 0 <= j < k ==> (#[trigger] boxes@[j]).ok(),
        decreases boxes.len() - k,
    {
        let b = boxes[k];
        if !(b.w >= 1 && b.h >= 1 && b.x < usize::MAX - b.w && b.y < usize::MAX - b.h) {
            return false;
        }
        k = k + 1;
    }
    true
}

/// How many edges drawn on their band each node is the target and the source
/// of.
#[verifier::loop_isolation(false)]
fn band_degrees(chart: &Flowchart, rank: &Vec<usize>, diverted: &Vec<usize>) -> (r: (Vec<usize>, Vec<usize>))
    requires
        chart.wf(),
        rank@.len() == chart.nodes@.len(),
    ensures
        r.0@.len() == chart.nodes@.len(),
        r.1@.len() == chart.nodes@.len(),
{
    let n = chart.nodes.len();
    let mut parents: Vec<usize> = Vec::new();
    let mut children: Vec<usize> = Vec::new();
    let mut i: usize = 0;
    while i < n
        invariant
            i <= n,
            parents@.len() == i,
            children@.len() == i,
            forall|j: int| 0 <= j < i ==> #[trigger] parents@[j] == 0,
            forall|j: int| 0 <= j < i ==> #[trigger] children@[j] == 0,
        decreases n - i,
    {
        parents.push(0);
        children.push(0);
        i = i + 1;
    }
    let mut k: usize = 0;
    while k < chart.edges.len()
        invariant
            k <= chart.edges@.len(),
            parents@.len() == n,
            children@.len() == n,
            forall|j: int| 0 <= j < n ==> #[trigger] parents@[j] <= k,
            forall|j: int| 0 <= j < n ==> #[trigger] children@[j] <= k,
        decreases chart.edges.len() - k,
    {
        if on_band(chart, rank, diverted, k) {
            let e = &chart.edges[k];
            parents.set(e.to, parents[e.to] + 1);
            children.set(e.from, children[e.from] + 1);
        }
        k = k + 1;
    }
    (parents, children)
}

/// The label of an edge as a string slice.
fn label_of(edge: &Edge) -> Option<&str> {
    match &edge.label {
        Some(l) => Some(l.as_str()),
        None => None,
    }
}

/// The position of `x` in `v`, if it is there.
fn position(v: &Vec<usize>, x: usize) -> (r: Option<usize>)
    ensures
        r matches Some(k) ==> k < v@.len() && v@[k as int] == x && forall|j: int| 0 <= j < k ==> v@[j] != x,
        r is None ==> !v@.contains(x),
{
    let mut k: usize = 0;
    while k < v.len()
        invariant
            k <= v@.len(),
            forall|j: int| 0 <= j < k ==> v@[j] != x,
        decreases v.len() - k,
    {
        if v[k] == x {
            return Some(k);
        }
        k = k + 1;
    }
    None
}

/// Draw a top-down chart: ranks are rows of boxes, each band's edges hang off
/// one bus per parent, and edges that skip a rank take a lane to the right
/// of every box.
#[verifier::loop_isolation(false)]
pub fn draw_top_down(
    chart: &Flowchart,
    by_rank: &Vec<Vec<usize>>,
    rank: &Vec<usize>,
    diverted: &Vec<usize>,
    calc: &WidthCalc,
    box_w: &Vec<usize>,
) -> (r: Option<Vec<String>>)
    requires
        chart.wf(),
        order_ok(chart.nodes@.len() as nat, rank@, by_rank@),
        box_w@.len() == chart.nodes@.len(),
    ensures
        r matches Some(rows) ==> rows@.len() >= 3 * by_rank@.len(),
{
    let n = chart.nodes.len();
    let (starts, content_width) = match column_starts(by_rank, n, box_w) {
        Some(p) => p,
        None => return None,
    };
    let long_edges = routed(chart, rank, diverted);
    let mut boxes: Vec<NodeBox> = Vec::new();
    let mut i: usize = 0;
    while i < n
        invariant
            i <= n,
            boxes@.len() == i,
        decreases n - i,
    {
        boxes.push(NodeBox { x: starts[i], y: 0, w: box_w[i], h: 3 });
        i = i + 1;
    }
    if !check_boxes(&boxes) {
        return None;
    }
    let (parents, children) = band_degrees(chart, rank, diverted);
    // An edge label goes beside a column, on the far side from the other end
    // of the edge, and needs room there.
    let mut margin: usize = 0;
    let mut extent: usize = 0;
    let mut k: usize = 0;
    while k < chart.edges.len()
        invariant
            k <= chart.edges@.len(),
        decreases chart.edges.len() - k,
    {
        let edge = &chart.edges[k];
        if edge.label.is_some() && on_band(chart, rank, diverted, k) {
            let w = label_width(edge, calc);
            let (fx, tx) = (boxes[edge.from].center_x(), boxes[edge.to].center_x());
            let shared = parents[edge.to] > 1 && children[edge.from] == 1;
            let start = label_start(fx, tx, w, shared);
            if start < 0 {
                let m = to_col(-start);
                if m > margin {
                    margin = m;
                }
            } else {
                let e = match to_col(start).checked_add(w) {
                    Some(v) => v,
                    None => return None,
                };
                if e > extent {
                    extent = e;
                }
            }
        }
        k = k + 1;
    }
    let mut i: usize = 0;
    while i < n
        invariant
            i <= n,
            boxes@.len() == n,
        decreases n - i,
    {
        let b = boxes[i];
        let x = match b.x.checked_add(margin) {
            Some(v) => v,
            None => return None,
        };
        boxes.set(i, NodeBox { x, y: b.y, w: b.w, h: b.h });
        i = i + 1;
    }
    if !check_boxes(&boxes) {
        return None;
    }
    let level = label_levels(chart, &boxes, rank, diverted, &parents, &children, calc);
    let mut y: usize = 0;
    let mut q: usize = 0;
    while q < by_rank.len()
        invariant
            q <= by_rank@.len(),
            boxes@.len() == n,
            y >= 3 * q,
        decreases by_rank.len() - q,
    {
        let nodes = &by_rank[q];
        let mut k: usize = 0;
        while k < nodes.len()
            invariant
                k <= nodes@.len(),
                boxes@.len() == n,
                nodes == by_rank@[q as int],
            decreases nodes.len() - k,
        {
            let b = boxes[nodes[k]];
            boxes.set(nodes[k], NodeBox { x: b.x, y, w: b.w, h: b.h });
            k = k + 1;
        }
        y = match y.checked_add(3) {
            Some(v) => v,
            None => return None,
        };
        if q + 1 < by_rank.len() {
            // The bus sits in the middle of the band and the labels stack up
            // from just above it, so the band has to be deep enough that the
            // topmost of them still clears the boxes.
            let mut stacked: usize = 0;
            let mut k: usize = 0;
            while k < chart.edges.len()
                invariant
                    k <= chart.edges@.len(),
                decreases chart.edges.len() - k,
            {
                let e = &chart.edges[k];
                if rank[e.from] == q && rank[e.to] == q + 1 && on_band(chart, rank, diverted, k) && level[k] > stacked {
                    stacked = level[k];
                }
                k = k + 1;
            }
            let depth = match stacked.checked_mul(2) {
                Some(v) => match v.checked_add(2) {
                    Some(v) => v,
                    None => return None,
                },
                None => return None,
            };
            y = match y.checked_add(if depth > BAND { depth } else { BAND }) {
                Some(v) => v,
                None => return None,
            };
        }
        q = q + 1;
    }
    let height = y;
    if !check_boxes(&boxes) {
        return None;
    }
    // A lane is a vertical run no label can be written along, so the label
    // hangs beside it and the next lane starts past its far end.
    let mut lane_off: Vec<usize> = Vec::new();
    let mut lane_x = match content_width.checked_add(1) {
        Some(v) => v,
        None => return None,
    };
    let mut k: usize = 0;
    while k < long_edges.len()
        invariant
            k <= long_edges@.len(),
            lane_off@.len() == k,
        decreases long_edges.len() - k,
    {
        lane_off.push(lane_x);
        let extra = match &chart.edges[long_edges[k]].label {
            Some(l) => match calc.str(l.as_str()).checked_add(1) {
                Some(v) => v,
                None => return None,
            },
            None => 0,
        };
        lane_x = match lane_x.checked_add(2) {
            Some(v) => match v.checked_add(extra) {
                Some(v) => v,
                None => return None,
            },
            None => return None,
        };
        k = k + 1;
    }
    let a = match lane_x.checked_add(1) {
        Some(v) => v,
        None => return None,
    };
    let b = match extent.checked_add(1) {
        Some(v) => v,
        None => return None,
    };
    let width = match margin.checked_add(if a > b { a } else { b }) {
        Some(v) => v,
        None => return None,
    };
    let first = match margin.checked_add(content_width) {
        Some(v) => match v.checked_add(1) {
            Some(v) => v,
            None => return None,
        },
        None => return None,
    };
    let mut grid = match Grid::new(width, height) {
        Some(g) => g,
        None => return None,
    };
    let mut i: usize = 0;
    while i < n
        invariant
            i <= n,
            grid.wf(),
            grid.height == height,
        decreases n - i,
    {
        draw_box(&mut grid, &boxes[i], chart.nodes[i].label.as_str(), chart.nodes[i].shape, calc);
        i = i + 1;
    }
    // Children of the same parent share one horizontal bus, so the glyph
    // where the bus meets the parent has to know about all of them at once.
    let mut parent: usize = 0;
    while parent < n
        invariant
            parent <= n,
            grid.wf(),
            grid.height == height,
        decreases n - parent,
    {
        let mut fan: Vec<usize> = Vec::new();
        let mut k: usize = 0;
        while k < chart.edges.len()
            invariant
                k <= chart.edges@.len(),
                forall|j: int| 0 <= j < fan@.len() ==> #[trigger] fan@[j] < chart.edges@.len(),
            decreases chart.edges.len() - k,
        {
            if chart.edges[k].from == parent && on_band(chart, rank, diverted, k) {
                fan.push(k);
            }
            k = k + 1;
        }
        if fan.len() > 0 {
            fan_out(&mut grid, &boxes[parent], &fan, chart, &boxes, &parents, &level, calc);
        }
        parent = parent + 1;
    }
    let mut k: usize = 0;
    while k < chart.edges.len()
        invariant
            k <= chart.edges@.len(),
            grid.wf(),
            grid.height == height,
        decreases chart.edges.len() - k,
    {
        if let Some(nth) = position(&long_edges, k) {
            let edge = &chart.edges[k];
            let at = match margin.checked_add(lane_off[nth]) {
                Some(v) => v,
                None => return None,
            };
            route_lane(
                &mut grid,
                &boxes[edge.from],
                &boxes[edge.to],
                &Lane { at, first },
                label_of(edge),
                chart.reversed,
                calc,
            );
        }
        k = k + 1;
    }
    Some(grid.rows())
}

} // verus!

verus! {

/// Draw a sideways chart: ranks are columns of boxes, each connector turns
/// in one column between two ranks, and edges that skip a rank take a lane
/// below every box.
#[verifier::loop_isolation(false)]
pub fn draw_left_right(
    chart: &Flowchart,
    by_rank: &Vec<Vec<usize>>,
    rank: &Vec<usize>,
    diverted: &Vec<usize>,
    calc: &WidthCalc,
    box_w: &Vec<usize>,
) -> (r: Option<Vec<String>>)
    requires
        chart.wf(),
        order_ok(chart.nodes@.len() as nat, rank@, by_rank@),
        box_w@.len() == chart.nodes@.len(),
    ensures
        r matches Some(rows) ==> rows@.len() >= rows_content(by_rank@),
{
    let n = chart.nodes.len();
    let mut column_width: Vec<usize> = Vec::new();
    let mut q: usize = 0;
    while q < by_rank.len()
        invariant
            q <= by_rank@.len(),
            column_width@.len() == q,
        decreases by_rank.len() - q,
    {
        let nodes = &by_rank[q];
        let mut widest: usize = 0;
        let mut k: usize = 0;
        while k < nodes.len()
            invariant
                k <= nodes@.len(),
                nodes == by_rank@[q as int],
            decreases nodes.len() - k,
        {
            if box_w[nodes[k]] > widest {
                widest = box_w[nodes[k]];
            }
            k = k + 1;
        }
        column_width.push(widest);
        q = q + 1;
    }
    let (starts, content_height) = match row_starts(by_rank, n) {
        Some(p) => p,
        None => return None,
    };
    let long_edges = routed(chart, rank, diverted);
    let lanes = if long_edges.len() == 0 {
        0
    } else {
        match long_edges.len().checked_add(1) {
            Some(v) => v,
            None => return None,
        }
    };
    let height = match content_height.checked_add(lanes) {
        Some(v) => v,
        None => return None,
    };
    let mut boxes: Vec<NodeBox> = Vec::new();
    let mut i: usize = 0;
    while i < n
        invariant
            i <= n,
            boxes@.len() == i,
        decreases n - i,
    {
        boxes.push(NodeBox { x: 0, y: starts[i], w: box_w[i], h: 3 });
        i = i + 1;
    }
    if !check_boxes(&boxes) {
        return None;
    }
    let (parents, children) = band_degrees(chart, rank, diverted);
    // A label is written into the connector itself, so the space between two
    // columns has to hold it. Labels sharing a row are set down one after
    // another along it, and the whole row is reserved.
    let m = chart.edges.len();
    let mut offset: Vec<usize> = Vec::new();
    let mut hangs_left: Vec<bool> = Vec::new();
    let mut k: usize = 0;
    while k < m
        invariant
            k <= m,
            offset@.len() == k,
            hangs_left@.len() == k,
        decreases m - k,
    {
        offset.push(0);
        hangs_left.push(false);
        k = k + 1;
    }
    let mut widest_left: Vec<usize> = Vec::new();
    let mut widest_right: Vec<usize> = Vec::new();
    let mut q: usize = 0;
    while q < by_rank.len()
        invariant
            q <= by_rank@.len(),
            widest_left@.len() == q,
            widest_right@.len() == q,
        decreases by_rank.len() - q,
    {
        widest_left.push(0);
        widest_right.push(0);
        q = q + 1;
    }
    let mut row_band: Vec<usize> = Vec::new();
    let mut row_row: Vec<usize> = Vec::new();
    let mut row_left: Vec<bool> = Vec::new();
    let mut row_taken: Vec<usize> = Vec::new();
    let mut i: usize = 0;
    while i < m
        invariant
            i <= m,
            offset@.len() == m,
            hangs_left@.len() == m,
            widest_left@.len() == by_rank@.len(),
            widest_right@.len() == by_rank@.len(),
            row_band@.len() == row_row@.len(),
            row_row@.len() == row_left@.len(),
            row_left@.len() == row_taken@.len(),
        decreases m - i,
    {
        let edge = &chart.edges[i];
        if edge.label.is_some() && on_band(chart, rank, diverted, i) {
            let band = rank[edge.from];
            let width = label_width(edge, calc);
            let left_row = boxes[edge.from].center_y();
            let right_row = boxes[edge.to].center_y();
            let preferred = label_at_left(chart.reversed, parents[edge.to], children[edge.from]);
            // Whether a row already holds a label at this end of this band.
            let mut occ_pref = false;
            let mut occ_other = false;
            let mut p: usize = 0;
            while p < row_band.len()
                invariant
                    p <= row_band@.len(),
                    row_band@.len() == row_row@.len(),
                    row_row@.len() == row_left@.len(),
                decreases row_band.len() - p,
            {
                if row_band[p] == band {
                    let pref_row = if preferred { left_row } else { right_row };
                    let other_row = if preferred { right_row } else { left_row };
                    if row_row[p] == pref_row && row_left[p] == preferred {
                        occ_pref = true;
                    }
                    if row_row[p] == other_row && row_left[p] == !preferred {
                        occ_other = true;
                    }
                }
                p = p + 1;
            }
            let at_left = if occ_pref && !occ_other { !preferred } else { preferred };
            hangs_left.set(i, at_left);
            let row = if at_left { left_row } else { right_row };
            let span = match width.checked_add(1) {
                Some(v) => v,
                None => return None,
            };
            let mut found: Option<usize> = None;
            let mut p: usize = 0;
            while p < row_band.len()
                invariant
                    p <= row_band@.len(),
                    row_band@.len() == row_row@.len(),
                    row_row@.len() == row_left@.len(),
                    found matches Some(f) ==> f < row_band@.len(),
                decreases row_band.len() - p,
            {
                if found.is_none() && row_band[p] == band && row_row[p] == row && row_left[p] == at_left {
                    found = Some(p);
                }
                p = p + 1;
            }
            let taken = match found {
                Some(p) => {
                    let at = row_taken[p];
                    let next = match at.checked_add(span) {
                        Some(v) => v,
                        None => return None,
                    };
                    row_taken.set(p, next);
                    at
                },
                None => {
                    row_band.push(band);
                    row_row.push(row);
                    row_left.push(at_left);
                    row_taken.push(span);
                    0
                },
            };
            offset.set(i, taken);
            let reach = match taken.checked_add(width) {
                Some(v) => v,
                None => return None,
            };
            if at_left {
                if reach > widest_left[band] {
                    widest_left.set(band, reach);
                }
            } else {
                if reach > widest_right[band] {
                    widest_right.set(band, reach);
                }
            }
        }
        i = i + 1;
    }
    let mut x: usize = 0;
    let mut q: usize = 0;
    while q < by_rank.len()
        invariant
            q <= by_rank@.len(),
            boxes@.len() == n,
        decreases by_rank.len() - q,
    {
        let nodes = &by_rank[q];
        let mut k: usize = 0;
        while k < nodes.len()
            invariant
                k <= nodes@.len(),
                boxes@.len() == n,
                nodes == by_rank@[q as int],
            decreases nodes.len() - k,
        {
            let b = boxes[nodes[k]];
            boxes.set(nodes[k], NodeBox { x, y: b.y, w: b.w, h: b.h });
            k = k + 1;
        }
        let (l, r) = (widest_left[q], widest_right[q]);
        let need = if l == 0 && r == 0 {
            Some(0usize)
        } else if r == 0 {
            l.checked_add(6)
        } else if l == 0 {
            r.checked_add(5)
        } else {
            match l.checked_add(r) {
                Some(v) => v.checked_add(7),
                None => None,
            }
        };
        let need = match need {
            Some(v) => v,
            None => return None,
        };
        let gap = if need > BAND * 2 { need } else { BAND * 2 };
        x = match x.checked_add(column_width[q]) {
            Some(v) => match v.checked_add(gap) {
                Some(v) => v,
                None => return None,
            },
            None => return None,
        };
        q = q + 1;
    }
    if !check_boxes(&boxes) {
        return None;
    }
    // A lane label that outgrows the run it sits in is written past the far
    // corner, which can reach beyond the last column.
    let mut width = match x.checked_add(2) {
        Some(v) => v,
        None => return None,
    };
    let mut k: usize = 0;
    while k < long_edges.len()
        invariant
            k <= long_edges@.len(),
        decreases long_edges.len() - k,
    {
        let e = &chart.edges[long_edges[k]];
        if let Some(l) = &e.label {
            let (a, b) = (boxes[e.from].center_x(), boxes[e.to].center_x());
            let hi = if a > b { a } else { b };
            let reach = match hi.checked_add(calc.str(l.as_str())) {
                Some(v) => match v.checked_add(3) {
                    Some(v) => v,
                    None => return None,
                },
                None => return None,
            };
            if reach > width {
                width = reach;
            }
        }
        k = k + 1;
    }
    let mut grid = match Grid::new(width, height) {
        Some(g) => g,
        None => return None,
    };
    let mut i: usize = 0;
    while i < n
        invariant
            i <= n,
            grid.wf(),
            grid.height == height,
        decreases n - i,
    {
        draw_box(&mut grid, &boxes[i], chart.nodes[i].label.as_str(), chart.nodes[i].shape, calc);
        i = i + 1;
    }
    let mut k: usize = 0;
    while k < m
        invariant
            k <= m,
            grid.wf(),
            grid.height == height,
        decreases m - k,
    {
        let edge = &chart.edges[k];
        if on_band(chart, rank, diverted, k) {
            let band = rank[edge.from];
            let label = EdgeLabel {
                at_left: hangs_left[k],
                offset: offset[k],
                reserved: (widest_left[band], widest_right[band]),
            };
            connect_right(&mut grid, &boxes[edge.from], &boxes[edge.to], label_of(edge), &label, chart.reversed, calc);
        } else if let Some(nth) = position(&long_edges, k) {
            let at = match content_height.checked_add(nth) {
                Some(v) => match v.checked_add(1) {
                    Some(v) => v,
                    None => return None,
                },
                None => return None,
            };
            route_lane_below(
                &mut grid,
                &boxes[edge.from],
                &boxes[edge.to],
                &Lane { at, first: content_height },
                label_of(edge),
                chart.reversed,
                calc,
            );
        }
        k = k + 1;
    }
    Some(grid.rows())
}

/// Which edges to take out of their band and route round the outside, so
/// that the remaining edges can be said honestly: the fewest that do it, and
/// among those the ones that break up the fewest fans.
#[verifier::loop_isolation(false)]
pub fn divert(
    chart: &Flowchart,
    rank: &Vec<usize>,
    by_rank: &Vec<Vec<usize>>,
    centres: &Vec<usize>,
) -> (r: Option<Vec<usize>>)
    requires
        chart.wf(),
        order_ok(chart.nodes@.len() as nat, rank@, by_rank@),
        centres@.len() == chart.nodes@.len(),
{
    let mut band: Vec<usize> = Vec::new();
    let mut k: usize = 0;
    while k < chart.edges.len()
        invariant
            k <= chart.edges@.len(),
            forall|j: int| 0 <= j < band@.len() ==> #[trigger] band@[j] < chart.edges@.len(),
        decreases chart.edges.len() - k,
    {
        let e = &chart.edges[k];
        if rank[e.to] > rank[e.from] && rank[e.to] - rank[e.from] == 1 {
            band.push(k);
        }
        k = k + 1;
    }
    // Searching pairs is quadratic in a band's edges and the check inside is
    // quadratic again; a chart big enough for that to matter is past what
    // anyone reads in a terminal.
    if band.len() > 24 {
        return None;
    }
    let n = chart.nodes.len();
    let mut fan: Vec<usize> = Vec::new();
    let mut i: usize = 0;
    while i < n
        invariant
            i <= n,
            fan@.len() == i,
            forall|j: int| 0 <= j < i ==> #[trigger] fan@[j] == 0,
        decreases n - i,
    {
        fan.push(0);
        i = i + 1;
    }
    let mut k: usize = 0;
    while k < band.len()
        invariant
            k <= band@.len(),
            fan@.len() == n,
            forall|j: int| 0 <= j < n ==> #[trigger] fan@[j] <= k,
        decreases band.len() - k,
    {
        let from = chart.edges[band[k]].from;
        fan.set(from, fan[from] + 1);
        k = k + 1;
    }
    let mut keys: Vec<i128> = Vec::new();
    let mut k: usize = 0;
    while k < band.len()
        invariant
            k <= band@.len(),
            keys@.len() == k,
            fan@.len() == n,
        decreases band.len() - k,
    {
        keys.push(fan[chart.edges[band[k]].from] as i128);
        k = k + 1;
    }
    let order = sort_by_key(&keys);
    let mut clear: Vec<usize> = Vec::new();
    let mut k: usize = 0;
    while k < order.len()
        invariant
            k <= order@.len(),
            order@.len() == band@.len(),
            forall|j: int| 0 <= j < clear@.len() ==> #[trigger] clear@[j] < chart.edges@.len(),
        decreases order.len() - k,
    {
        let i = band[order[k]];
        if road_is_clear(chart, rank, by_rank, i) {
            clear.push(i);
        }
        k = k + 1;
    }
    let mut a: usize = 0;
    while a < clear.len()
        invariant
            a <= clear@.len(),
        decreases clear.len() - a,
    {
        let mut out: Vec<usize> = Vec::new();
        out.push(clear[a]);
        if bus_runs_are_honest(chart, rank, &out, centres) {
            return Some(out);
        }
        a = a + 1;
    }
    let mut a: usize = 0;
    while a < clear.len()
        invariant
            a <= clear@.len(),
        decreases clear.len() - a,
    {
        let mut b = a + 1;
        while b < clear.len()
            invariant
                a < b <= clear@.len() || b == a + 1,
                a < clear@.len(),
            decreases clear.len() - b,
        {
            let mut out: Vec<usize> = Vec::new();
            out.push(clear[a]);
            out.push(clear[b]);
            if bus_runs_are_honest(chart, rank, &out, centres) {
                return Some(out);
            }
            b = b + 1;
        }
        a = a + 1;
    }
    None
}

/// Whether an order draws honestly with the given edges taken off their
/// bands: every band's runs say only what was written, and every routed
/// edge has a clear road. `None` when the positions do not fit in `usize`.
pub fn drawable(
    chart: &Flowchart,
    rank: &Vec<usize>,
    order: &Vec<Vec<usize>>,
    out: &Vec<usize>,
    box_w: &Vec<usize>,
) -> (r: Option<bool>)
    requires
        chart.wf(),
        order_ok(chart.nodes@.len() as nat, rank@, order@),
        box_w@.len() == chart.nodes@.len(),
    ensures
        r is Some <==> centres_fit(*chart, order@, box_w@),
        r == Some(true) ==> forall|j: int| 0 <= j < routed_upto(*chart, rank@, out@, chart.edges@.len() as int).len()
            ==> road_clear(*chart, rank@, order@, #[trigger] routed_upto(*chart, rank@, out@, chart.edges@.len() as int)[j] as int),
{
    let c = match centres(chart, order, box_w) {
        Some(c) => c,
        None => return None,
    };
    Some(bus_runs_are_honest(chart, rank, out, &c) && roads_out_are_clear(chart, rank, order, out))
}

/// Lay a flowchart out and draw it, or `None` if it cannot be drawn
/// honestly: it has a cycle, or a band no order or routing can say without
/// offering a connection that was not written.
pub fn draw_flowchart(chart: &Flowchart, calc: &WidthCalc) -> (r: Option<Vec<String>>)
    requires
        chart.wf(),
    ensures
        r is Some ==> exists|rk: Seq<usize>| is_layering(chart, rk),
        r is Some ==> acyclic(*chart),
{
    let rank = match ranks(chart) {
        Some(r) => r,
        None => return None,
    };
    assert(is_layering(chart, rank@));
    let n = chart.nodes.len();
    let mut depth: usize = 1;
    let mut i: usize = 0;
    while i < n
        invariant
            i <= n,
            rank@.len() == n,
            forall|j: int| 0 <= j < n ==> #[trigger] rank@[j] < n,
            forall|j: int| 0 <= j < i ==> #[trigger] rank@[j] < depth,
            depth <= n + 1,
            n == chart.nodes@.len(),
        decreases n - i,
    {
        if rank[i] + 1 > depth {
            depth = rank[i] + 1;
        }
        i = i + 1;
    }
    let mut by_rank = group_by_rank(&rank, depth);
    let mut box_w: Vec<usize> = Vec::new();
    let mut i: usize = 0;
    while i < n
        invariant
            i <= n,
            n == chart.nodes@.len(),
            box_w@.len() == i,
        decreases n - i,
    {
        let w = match calc.str(chart.nodes[i].label.as_str()).checked_add(4) {
            Some(v) => v,
            None => return None,
        };
        box_w.push(w);
        i = i + 1;
    }
    // The document's own order is kept wherever the chart can be drawn in it;
    // reordering a rank is a repair, not a policy.
    let mut diverted: Vec<usize> = Vec::new();
    let none: Vec<usize> = Vec::new();
    let plain = match drawable(chart, &rank, &by_rank, &none, &box_w) {
        Some(b) => b,
        None => return None,
    };
    if !plain {
        let orders = untangled(chart, &rank, &by_rank);
        // A plain drawing beats a routed one, so every order is tried on its
        // own before any of them may send an edge round the outside.
        let mut found: Option<usize> = None;
        let mut k: usize = 0;
        while k < orders.len()
            invariant
                chart.wf(),
                k <= orders@.len(),
                box_w@.len() == chart.nodes@.len(),
                forall|j: int| 0 <= j < orders@.len() ==> order_ok(chart.nodes@.len() as nat, rank@, #[trigger] orders@[j]@),
                found matches Some(f) ==> f < orders@.len(),
            decreases orders.len() - k,
        {
            match drawable(chart, &rank, &orders[k], &none, &box_w) {
                Some(true) => {
                    found = Some(k);
                    break;
                },
                Some(false) => {},
                None => return None,
            }
            k = k + 1;
        }
        match found {
            Some(f) => {
                by_rank = copy_order(&orders[f]);
            },
            None => {
                let mut k: usize = 0;
                while k < orders.len()
                    invariant
                        chart.wf(),
                        k <= orders@.len(),
                        box_w@.len() == chart.nodes@.len(),
                        forall|j: int| 0 <= j < orders@.len() ==> order_ok(chart.nodes@.len() as nat, rank@, #[trigger] orders@[j]@),
                        found matches Some(f) ==> f < orders@.len(),
                    decreases orders.len() - k,
                {
                    let c = match centres(chart, &orders[k], &box_w) {
                        Some(c) => c,
                        None => return None,
                    };
                    if let Some(out) = divert(chart, &rank, &orders[k], &c) {
                        match drawable(chart, &rank, &orders[k], &out, &box_w) {
                            Some(true) => {
                                found = Some(k);
                                diverted = out;
                                break;
                            },
                            Some(false) => {},
                            None => return None,
                        }
                    }
                    k = k + 1;
                }
                match found {
                    Some(f) => {
                        by_rank = copy_order(&orders[f]);
                    },
                    None => return None,
                }
            },
        }
    }
    match chart.direction {
        Direction::TopDown => draw_top_down(chart, &by_rank, &rank, &diverted, calc, &box_w),
        Direction::LeftRight => draw_left_right(chart, &by_rank, &rank, &diverted, calc, &box_w),
    }
}

} // verus!
