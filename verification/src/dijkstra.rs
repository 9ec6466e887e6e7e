//! Single-source shortest distances over a directed graph with bounded
//! non-negative edge costs, by repeated edge relaxation driven by a worklist.
//!
//! A vertex is an index into the adjacency list; `INF` stands for "not
//! reached". The result is a fixed point of relaxation: the source has
//! distance 0, no edge can lower a distance any further, and every finite
//! distance is supported by an in-edge from another reached vertex (or is the
//! source's own 0). With strictly positive costs these properties determine
//! the shortest distances uniquely.
//!
//! The order in which the worklist hands out its entries does not affect the
//! result, only how many relaxation rounds happen; a stale entry (one whose
//! recorded distance has since improved) is skipped.

use vstd::prelude::*;

verus! {

/// A directed edge to vertex `to` of cost `cost`.
pub struct Edge {
    pub to: usize,
    pub cost: i64,
}

/// Vertex `u`'s out-edges are `g[u]`.
pub type Graph = Vec<Vec<Edge>>;

/// The distance given to vertices no path reaches.
pub const INF: i64 = 0x1000_0000_0000_0000;

/// Every edge points inside the graph and has a cost in `[0, INF]`.
pub open spec fn graph_wf(g: Seq<Vec<Edge>>) -> bool {
    forall|u: int, j: int|
        #![trigger g[u]@[j]]
        0 <= u < g.len() && 0 <= j < g[u]@.len() ==> g[u]@[j].to < g.len() && 0 <= g[u]@[j].cost
            <= INF
}

/// No out-edge of `u` can lower the distance of its head any further.
pub open spec fn relaxed_from(g: Seq<Vec<Edge>>, dis: Seq<i64>, u: int) -> bool {
    forall|j: int|
        #![trigger g[u]@[j]]
        0 <= j < g[u]@.len() ==> dis[g[u]@[j].to as int] <= dis[u] + g[u]@[j].cost
}

// The sum of all distances: the termination measure for the relaxation loop,
// since every relaxation strictly lowers one distance.
spec fn sum_dis(s: Seq<i64>) -> int
    decreases s.len(),
{
    if s.len() == 0 {
        0
    } else {
        s[0] + sum_dis(s.drop_first())
    }
}

proof fn lemma_sum_dis_update(s: Seq<i64>, i: int, x: i64)
    requires
        0 <= i < s.len(),
    ensures
        sum_dis(s.update(i, x)) == sum_dis(s) - s[i] + x,
    decreases s.len(),
{
    if i == 0 {
        assert(s.update(0, x).drop_first() =~= s.drop_first());
    } else {
        assert(s.update(i, x).drop_first() =~= s.drop_first().update(i - 1, x));
        lemma_sum_dis_update(s.drop_first(), i - 1, x);
    }
}

proof fn lemma_sum_dis_nonneg(s: Seq<i64>)
    requires
        forall|v: int| 0 <= v < s.len() ==> 0 <= #[trigger] s[v],
    ensures
        sum_dis(s) >= 0,
    decreases s.len(),
{
    if s.len() > 0 {
        lemma_sum_dis_nonneg(s.drop_first());
    }
}

// Relaxing one edge keeps every reached vertex supported by an in-edge:
// the newly lowered vertex is supported by the edge just used, and any other
// witness edge only got a cheaper tail.
proof fn lemma_relax_support(g: Seq<Vec<Edge>>, dpre: Seq<i64>, dnew: Seq<i64>, v: int, j: int, s: int)
    requires
        graph_wf(g),
        dpre.len() == g.len(),
        0 <= s < g.len(),
        0 <= v < g.len(),
        0 <= j < g[v]@.len(),
        forall|w: int| 0 <= w < g.len() ==> 0 <= #[trigger] dpre[w] <= INF,
        dpre[g[v]@[j].to as int] > dpre[v] + g[v]@[j].cost,
        dnew == dpre.update(g[v]@[j].to as int, (dpre[v] + g[v]@[j].cost) as i64),
        forall|w: int|
            0 <= w < g.len() && w != s && #[trigger] dpre[w] < INF ==> exists|u: int, jx: int|
                0 <= u < g.len() && 0 <= jx < g[u]@.len() && (#[trigger] g[u]@[jx]).to == w
                    && dpre[w] >= dpre[u] + g[u]@[jx].cost,
    ensures
        forall|w: int|
            0 <= w < g.len() && w != s && #[trigger] dnew[w] < INF ==> exists|u: int, jx: int|
                0 <= u < g.len() && 0 <= jx < g[u]@.len() && (#[trigger] g[u]@[jx]).to == w
                    && dnew[w] >= dnew[u] + g[u]@[jx].cost,
{
    let to = g[v]@[j].to as int;
    assert(to != v);
    assert forall|w: int|
        0 <= w < g.len() && w != s && #[trigger] dnew[w] < INF implies exists|u: int, jx: int|
        0 <= u < g.len() && 0 <= jx < g[u]@.len() && (#[trigger] g[u]@[jx]).to == w && dnew[w]
            >= dnew[u] + g[u]@[jx].cost by {
        if w == to {
            assert(g[v]@[j].to == w && dnew[w] >= dnew[v] + g[v]@[j].cost);
        } else {
            assert(dnew[w] == dpre[w]);
            let (u, jx): (int, int) = choose|u: int, jx: int|
                0 <= u < g.len() && 0 <= jx < g[u]@.len() && (#[trigger] g[u]@[jx]).to == w
                    && dpre[w] >= dpre[u] + g[u]@[jx].cost;
            assert(dnew[u] <= dpre[u]);
            assert(g[u]@[jx].to == w && dnew[w] >= dnew[u] + g[u]@[jx].cost);
        }
    };
}

/// Computes, for every vertex, the cost of the cheapest path from `s`, with
/// `INF` for vertices no path reaches: the result satisfies the fixed-point
/// equations of relaxation.
#[verifier::rlimit(100)]
pub fn dijkstra(g: &Graph, s: usize) -> (dis: Vec<i64>)
    requires
        s < g@.len(),
        graph_wf(g@),
    ensures
        dis@.len() == g@.len(),
        dis@[s as int] == 0,
        forall|v: int| 0 <= v < g@.len() ==> 0 <= #[trigger] dis@[v] <= INF,
        // No edge from a reached vertex can improve a distance.
        forall|u: int| 0 <= u < g@.len() && #[trigger] dis@[u] < INF ==> relaxed_from(g@, dis@, u),
        // Every reached vertex other than the source owes its distance to an
        // in-edge from another reached vertex.
        forall|v: int|
            0 <= v < g@.len() && v != s && #[trigger] dis@[v] < INF ==> exists|u: int, j: int|
                0 <= u < g@.len() && 0 <= j < g@[u]@.len() && (#[trigger] g@[u]@[j]).to == v
                    && dis@[v] >= dis@[u] + g@[u]@[j].cost,
{
    let mut dis: Vec<i64> = vec![INF; g.len()];
    let mut bheap: Vec<(i64, usize)> = Vec::new();

    dis[s] = 0;
    bheap.push((0, s));
    proof {
        assert(forall|v: int| 0 <= v < g@.len() && v != s ==> #[trigger] dis@[v] == INF);
        assert(forall|v: int| 0 <= v < g@.len() ==> 0 <= #[trigger] dis@[v] <= INF);
        assert(bheap@[0] == (0i64, s));
        assert(bheap@[0].1 == s && bheap@[0].0 == dis@[s as int]);
    }

    while bheap.len() > 0
        invariant
            graph_wf(g@),
            s < g@.len(),
            dis@.len() == g@.len(),
            dis@[s as int] == 0,
            forall|v: int| 0 <= v < g@.len() ==> 0 <= #[trigger] dis@[v] <= INF,
            forall|e: int|
                0 <= e < bheap@.len() ==> (#[trigger] bheap@[e]).1 < g@.len() && bheap@[e].0
                    >= dis@[bheap@[e].1 as int],
            forall|u: int|
                0 <= u < g@.len() && #[trigger] dis@[u] < INF ==> relaxed_from(g@, dis@, u) || (
                exists|e: int|
                    0 <= e < bheap@.len() && (#[trigger] bheap@[e]).1 == u && bheap@[e].0 == dis@[
                    u]),
            forall|v: int|
                0 <= v < g@.len() && v != s && #[trigger] dis@[v] < INF ==> exists|u: int, j: int|
                    0 <= u < g@.len() && 0 <= j < g@[u]@.len() && (#[trigger] g@[u]@[j]).to == v
                        && dis@[v] >= dis@[u] + g@[u]@[j].cost,
        decreases sum_dis(dis@), bheap@.len(),
    {
        proof {
            lemma_sum_dis_nonneg(dis@);
        }
        let ghost dis0 = dis@;
        let ghost heap0 = bheap@;
        let peek = match bheap.pop() {
            Some(p) => p,
            None => {
                return dis;  // unreachable: the worklist is non-empty
            }
        };
        let d = peek.0;
        let v = peek.1;
        proof {
            assert(heap0[heap0.len() - 1] == peek);
            assert(v < g@.len() && d >= dis@[v as int]);
        }

        if dis[v] >= d {
            // The entry is live: relax every out-edge of `v`.
            proof {
                assert forall|u: int|
                    0 <= u < g@.len() && u != v as int && #[trigger] dis@[u] < INF
                        && !relaxed_from(g@, dis@, u) implies exists|e: int|
                    0 <= e < bheap@.len() && (#[trigger] bheap@[e]).1 == u && bheap@[e].0 == dis@[
                    u] by {
                    let e0 = choose|e0: int|
                        0 <= e0 < heap0.len() && (#[trigger] heap0[e0]).1 == u && heap0[e0].0
                            == dis@[u];
                    assert(heap0[heap0.len() - 1].1 == v);
                    assert(e0 < heap0.len() - 1);
                    assert(bheap@[e0] == heap0[e0]);
                };
            }
            let ghost disv = dis@[v as int];
            let mut j: usize = 0;
            while j < g[v].len()
                invariant
                    graph_wf(g@),
                    s < g@.len(),
                    (v as int) < g@.len(),
                    j <= g@[v as int]@.len(),
                    dis@.len() == g@.len(),
                    dis0.len() == g@.len(),
                    dis@[s as int] == 0,
                    dis@[v as int] == disv,
                    forall|w: int| 0 <= w < g@.len() ==> 0 <= #[trigger] dis@[w] <= INF,
                    forall|w: int| 0 <= w < g@.len() ==> #[trigger] dis@[w] <= dis0[w],
                    forall|e: int|
                        0 <= e < bheap@.len() ==> (#[trigger] bheap@[e]).1 < g@.len()
                            && bheap@[e].0 >= dis@[bheap@[e].1 as int],
                    forall|jj: int|
                        #![trigger g@[v as int]@[jj]]
                        0 <= jj < j ==> dis@[g@[v as int]@[jj].to as int] <= dis@[v as int] + g@[
                        v as int]@[jj].cost,
                    forall|u: int|
                        0 <= u < g@.len() && u != v && #[trigger] dis@[u] < INF ==> relaxed_from(
                            g@,
                            dis@,
                            u,
                        ) || (exists|e: int|
                            0 <= e < bheap@.len() && (#[trigger] bheap@[e]).1 == u && bheap@[e].0
                                == dis@[u]),
                    forall|w: int|
                        0 <= w < g@.len() && w != s && #[trigger] dis@[w] < INF ==> exists|
                            u: int,
                            jx: int,
                        |
                            0 <= u < g@.len() && 0 <= jx < g@[u]@.len() && (#[trigger] g@[u]@[
                            jx]).to == w && dis@[w] >= dis@[u] + g@[u]@[jx].cost,
                    (dis@ == dis0 && bheap@ == heap0.drop_last()) || sum_dis(dis@) < sum_dis(
                        dis0,
                    ),
                decreases g@[v as int]@.len() - j,
            {
                let to = g[v][j].to;
                let cost = g[v][j].cost;
                if dis[to] > dis[v] + cost {
                    let ghost dpre = dis@;
                    let ghost heappre = bheap@;
                    let nd = dis[v] + cost;
                    dis[to] = nd;
                    bheap.push((nd, to));
                    proof {
                        lemma_sum_dis_update(dpre, to as int, nd);
                        assert(sum_dis(dis@) < sum_dis(dpre));
                        if sum_dis(dpre) < sum_dis(dis0) {
                        } else {
                            assert(dpre == dis0);
                        }
                        assert(dis@[to as int] == nd);
                        assert(bheap@[bheap@.len() - 1] == (nd, to));
                        lemma_relax_support(g@, dpre, dis@, v as int, j as int, s as int);
                        assert forall|u: int|
                            0 <= u < g@.len() && u != v && #[trigger] dis@[u] < INF
                                && !relaxed_from(g@, dis@, u) implies exists|e: int|
                            0 <= e < bheap@.len() && (#[trigger] bheap@[e]).1 == u && bheap@[e].0
                                == dis@[u] by {
                            if u == to as int {
                                assert(bheap@[bheap@.len() - 1].1 == u && bheap@[bheap@.len()
                                    - 1].0 == dis@[u]);
                            } else {
                                assert(dis@[u] == dpre[u]);
                                if relaxed_from(g@, dpre, u) {
                                    assert forall|jj: int|
                                        0 <= jj < g@[u]@.len() implies dis@[(#[trigger] g@[u]@[
                                    jj]).to as int] <= dis@[u] + g@[u]@[jj].cost by {
                                        assert(dpre[g@[u]@[jj].to as int] <= dpre[u] + g@[u]@[
                                        jj].cost);
                                    };
                                    assert(relaxed_from(g@, dis@, u));
                                } else {
                                    let e = choose|e: int|
                                        0 <= e < heappre.len() && (#[trigger] heappre[e]).1 == u
                                            && heappre[e].0 == dpre[u];
                                    assert(bheap@[e] == heappre[e]);
                                }
                            }
                        };
                    }
                }
                j += 1;
            }
            proof {
                assert(relaxed_from(g@, dis@, v as int));
                lemma_sum_dis_nonneg(dis@);
            }
        } else {
            // A stale entry: the vertex has improved since it was queued, so
            // a fresher entry for it is still in the worklist.
            proof {
                assert forall|u: int|
                    0 <= u < g@.len() && #[trigger] dis@[u] < INF && !relaxed_from(
                        g@,
                        dis@,
                        u,
                    ) implies exists|e: int|
                    0 <= e < bheap@.len() && (#[trigger] bheap@[e]).1 == u && bheap@[e].0 == dis@[
                    u] by {
                    let e0 = choose|e0: int|
                        0 <= e0 < heap0.len() && (#[trigger] heap0[e0]).1 == u && heap0[e0].0
                            == dis@[u];
                    assert(e0 < heap0.len() - 1) by {
                        if e0 == heap0.len() - 1 {
                            assert(heap0[e0] == peek);
                        }
                    }
                    assert(bheap@[e0] == heap0[e0]);
                };
                lemma_sum_dis_nonneg(dis@);
            }
        }
    }
    dis
}

} // verus!
