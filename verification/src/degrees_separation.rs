//! Undirected graph analysis over a compact index space: building the
//! adjacency list, breadth-first shortest-path search, and the all-pairs
//! degree-of-separation tally.

use vstd::prelude::*;

use crate::dataprocessing::combine_vectors;

verus! {

/// A well-formed adjacency list: every neighbor entry names a node.
pub open spec fn wf_graph(g: Seq<Seq<usize>>) -> bool {
    forall|v: int, j: int|
        0 <= v < g.len() && 0 <= j < g[v].len() ==> (#[trigger] g[v][j]) < g.len()
}

/// What one edge contributes to the neighbor list of node `v`: the other
/// endpoint once for each side of the edge it occupies, so a self-loop
/// contributes itself twice and multiplicities are preserved.
pub open spec fn edge_contribution(p: (usize, usize), v: usize) -> Seq<usize> {
    if p.0 == v && p.1 == v {
        seq![v, v]
    } else if p.0 == v {
        seq![p.1]
    } else if p.1 == v {
        seq![p.0]
    } else {
        Seq::empty()
    }
}

/// The neighbor list of `v` induced by an edge list: the concatenation,
/// in edge order, of each edge's contribution to `v`.
pub open spec fn neighbors_of(pairs: Seq<(usize, usize)>, v: usize) -> Seq<usize>
    decreases pairs.len(),
{
    if pairs.len() == 0 {
        Seq::empty()
    } else {
        neighbors_of(pairs.drop_last(), v) + edge_contribution(pairs.last(), v)
    }
}

/// The two columns of a compact edge list read as a sequence of edges.
pub open spec fn zipped_edges(nodes: Seq<usize>, edges: Seq<usize>) -> Seq<(usize, usize)> {
    Seq::new(nodes.len(), |i: int| (nodes[i], edges[i]))
}

/// Builds the undirected adjacency list on `n` nodes from a compact edge
/// list: each edge `(v, w)` appends `w` to `v`'s list and `v` to `w`'s.
pub fn adj_list(n: usize, nodes: Vec<usize>, edges: Vec<usize>) -> (r: Vec<Vec<usize>>)
    requires
        nodes@.len() == edges@.len(),
        forall|i: int| 0 <= i < nodes@.len() ==> nodes@[i] < n && edges@[i] < n,
    ensures
        r@.len() == n,
        forall|v: int| 0 <= v < n
            ==> (#[trigger] r@[v])@ == neighbors_of(zipped_edges(nodes@, edges@), v as usize),
        wf_graph(r.deep_view()),
{
    let ghost pairs = zipped_edges(nodes@, edges@);
    let connections = combine_vectors(nodes, edges);
    proof {
        assert(connections@ =~= pairs);
    }
    let mut adjacency_list: Vec<Vec<usize>> = Vec::new();
    let mut v: usize = 0;
    while v < n
        invariant
            v <= n,
            adjacency_list@.len() == v,
            forall|u: int| 0 <= u < v ==> (#[trigger] adjacency_list@[u])@ == Seq::<usize>::empty(),
        decreases n - v,
    {
        adjacency_list.push(Vec::new());
        v += 1;
    }
    proof {
        assert forall|u: int| 0 <= u < n implies
            (#[trigger] adjacency_list@[u])@ == neighbors_of(pairs.take(0), u as usize) by {
            assert(pairs.take(0) =~= Seq::<(usize, usize)>::empty());
        }
    }
    let mut k: usize = 0;
    while k < connections.len()
        invariant
            k <= connections@.len(),
            connections@ == pairs,
            pairs.len() == nodes@.len(),
            forall|i: int| 0 <= i < pairs.len()
                ==> (#[trigger] pairs[i]).0 < n && pairs[i].1 < n,
            adjacency_list@.len() == n,
            forall|u: int| 0 <= u < n
                ==> (#[trigger] adjacency_list@[u])@ == neighbors_of(pairs.take(k as int), u as usize),
        decreases connections@.len() - k,
    {
        let ghost before = adjacency_list@;
        let vk = connections[k].0;
        let wk = connections[k].1;
        adjacency_list[vk].push(wk);
        adjacency_list[wk].push(vk);
        proof {
            let taken1 = pairs.take(k as int + 1);
            assert(taken1.drop_last() =~= pairs.take(k as int));
            assert(taken1.last() == pairs[k as int]);
            assert forall|u: int| 0 <= u < n implies
                (#[trigger] adjacency_list@[u])@ == neighbors_of(taken1, u as usize) by {
                let added = edge_contribution(pairs[k as int], u as usize);
                assert(neighbors_of(taken1, u as usize)
                    == neighbors_of(pairs.take(k as int), u as usize) + added);
                if u == vk && u == wk {
                    assert(adjacency_list@[u]@ =~= before[u]@ + seq![u as usize, u as usize]);
                } else if u == vk {
                    assert(adjacency_list@[u]@ =~= before[u]@ + seq![wk]);
                } else if u == wk {
                    assert(adjacency_list@[u]@ =~= before[u]@ + seq![vk]);
                } else {
                    assert(adjacency_list@[u]@ =~= before[u]@ + Seq::<usize>::empty());
                }
            }
        }
        k += 1;
    }
    proof {
        assert(pairs.take(pairs.len() as int) =~= pairs);
        let dv = adjacency_list.deep_view();
        assert forall|u: int, j: int|
            0 <= u < dv.len() && 0 <= j < dv[u].len() implies (#[trigger] dv[u][j]) < dv.len() by {
            assert(dv[u] =~= adjacency_list@[u]@);
            lemma_neighbors_in_range(pairs, u as usize, n);
        }
    }
    adjacency_list
}

/// Every entry of a neighbor list is an endpoint of some edge, so it is
/// a node whenever all edge endpoints are.
proof fn lemma_neighbors_in_range(pairs: Seq<(usize, usize)>, v: usize, n: usize)
    requires
        forall|i: int| 0 <= i < pairs.len() ==> (#[trigger] pairs[i]).0 < n && pairs[i].1 < n,
    ensures
        forall|j: int| 0 <= j < neighbors_of(pairs, v).len()
            ==> (#[trigger] neighbors_of(pairs, v)[j]) < n,
    decreases pairs.len(),
{
    if pairs.len() > 0 {
        let rest = pairs.drop_last();
        assert(forall|i: int| 0 <= i < rest.len() ==> rest[i] == pairs[i]);
        lemma_neighbors_in_range(rest, v, n);
        let added = edge_contribution(pairs.last(), v);
        let whole = neighbors_of(pairs, v);
        let prefix = neighbors_of(rest, v);
        assert(whole == prefix + added);
        assert forall|j: int| 0 <= j < whole.len() implies (#[trigger] whole[j]) < n by {
            if j < prefix.len() {
                assert(whole[j] == prefix[j]);
            } else {
                assert(whole[j] == added[j - prefix.len()]);
                assert(added[j - prefix.len()] < n);
            }
        }
    }
}

/// Law: adjacency symmetry. For every edge `(v, w)` of the compact edge
/// list, `w` occurs in the neighbor list of `v` and `v` in that of `w`.
pub proof fn lemma_adjacency_symmetry(pairs: Seq<(usize, usize)>, k: int)
    requires
        0 <= k < pairs.len(),
    ensures
        neighbors_of(pairs, pairs[k].0).contains(pairs[k].1),
        neighbors_of(pairs, pairs[k].1).contains(pairs[k].0),
    decreases pairs.len(),
{
    let v = pairs[k].0;
    let w = pairs[k].1;
    if k == pairs.len() - 1 {
        let nv = neighbors_of(pairs.drop_last(), v);
        let cv = edge_contribution(pairs[k], v);
        assert(cv[0] == w);
        assert((nv + cv)[nv.len() as int] == w);
        let nw = neighbors_of(pairs.drop_last(), w);
        let cw = edge_contribution(pairs[k], w);
        if v == w {
            assert((nw + cw)[nw.len() as int] == v);
        } else {
            assert(cw[0] == v);
            assert((nw + cw)[nw.len() as int] == v);
        }
    } else {
        lemma_adjacency_symmetry(pairs.drop_last(), k);
        assert(pairs.drop_last()[k] == pairs[k]);
        let nv = neighbors_of(pairs.drop_last(), v);
        let cv = edge_contribution(pairs.last(), v);
        let iv = choose|i: int| 0 <= i < nv.len() && nv[i] == w;
        assert((nv + cv)[iv] == w);
        let nw = neighbors_of(pairs.drop_last(), w);
        let cw = edge_contribution(pairs.last(), w);
        let iw = choose|i: int| 0 <= i < nw.len() && nw[i] == v;
        assert((nw + cw)[iw] == v);
    }
}

} // verus!

use std::collections::VecDeque;
use vstd::set_lib::lemma_len_subset;
use vstd::set_lib::lemma_int_range;
use vstd::set_lib::set_int_range;

verus! {

/// There is a directed step from node `v` to node `w`: `w` occurs in the
/// neighbor list of `v`.
pub open spec fn step_to(g: Seq<Seq<usize>>, v: int, w: int) -> bool {
    0 <= v < g.len() && exists|j: int| 0 <= j < g[v].len() && g[v][j] as int == w
}

/// The nodes one step away from some node of `s`.
pub open spec fn step_targets(g: Seq<Seq<usize>>, s: Set<int>) -> Set<int> {
    Set::new(|w: int| exists|v: int| s.contains(v) && step_to(g, v, w))
}

/// The set of nodes reachable from `s` in at most `d` hops.
pub open spec fn reach(g: Seq<Seq<usize>>, s: int, d: nat) -> Set<int>
    decreases d,
{
    if d == 0 {
        set![s]
    } else {
        let prev = reach(g, s, (d - 1) as nat);
        prev.union(step_targets(g, prev))
    }
}

/// There is a path of at most `d` hops from `s` to `e`.
pub open spec fn dist_at_most(g: Seq<Seq<usize>>, s: int, e: int, d: nat) -> bool {
    reach(g, s, d).contains(e)
}

/// Some path connects `s` to `e` (true in particular when `s == e`).
pub open spec fn connected(g: Seq<Seq<usize>>, s: int, e: int) -> bool {
    exists|d: nat| dist_at_most(g, s, e, d)
}

/// `d` is the exact shortest-path distance from `s` to `e`.
pub open spec fn is_shortest_dist(g: Seq<Seq<usize>>, s: int, e: int, d: nat) -> bool {
    dist_at_most(g, s, e, d) && forall|d2: nat| d2 < d ==> !dist_at_most(g, s, e, d2)
}

/// The shortest-path distance from `s` to `e`, defined when they are
/// connected.
pub open spec fn shortest_dist(g: Seq<Seq<usize>>, s: int, e: int) -> nat {
    choose|d: nat| is_shortest_dist(g, s, e, d)
}

/// Reachability within a smaller hop budget implies reachability within a
/// larger one.
pub proof fn lemma_reach_mono(g: Seq<Seq<usize>>, s: int, d1: nat, d2: nat)
    requires
        d1 <= d2,
    ensures
        forall|u: int| reach(g, s, d1).contains(u) ==> #[trigger] reach(g, s, d2).contains(u),
    decreases d2,
{
    if d1 < d2 {
        lemma_reach_mono(g, s, d1, (d2 - 1) as nat);
        assert forall|u: int| reach(g, s, d1).contains(u)
            implies #[trigger] reach(g, s, d2).contains(u) by {
            assert(reach(g, s, (d2 - 1) as nat).contains(u));
        }
    }
}

/// The shortest-path distance is unique, so it coincides with any
/// witness of `is_shortest_dist`.
pub proof fn lemma_shortest_dist_is(g: Seq<Seq<usize>>, s: int, e: int, d: nat)
    requires
        is_shortest_dist(g, s, e, d),
    ensures
        connected(g, s, e),
        shortest_dist(g, s, e) == d,
{
    assert(dist_at_most(g, s, e, d));
    let d2 = shortest_dist(g, s, e);
    assert(is_shortest_dist(g, s, e, d2));
    if d < d2 {
        assert(!dist_at_most(g, s, e, d));
    }
    if d2 < d {
        assert(!dist_at_most(g, s, e, d2));
    }
}

/// A set that contains `s` and is closed under graph steps contains
/// everything reachable from `s`.
proof fn lemma_reach_in_closed(g: Seq<Seq<usize>>, s: int, vset: Set<int>, d: nat)
    requires
        vset.contains(s),
        forall|v: int, w: int| #[trigger] vset.contains(v) && #[trigger] step_to(g, v, w)
            ==> vset.contains(w),
    ensures
        forall|u: int| #[trigger] reach(g, s, d).contains(u) ==> vset.contains(u),
    decreases d,
{
    if d > 0 {
        let prev = reach(g, s, (d - 1) as nat);
        lemma_reach_in_closed(g, s, vset, (d - 1) as nat);
        assert forall|u: int| #[trigger] reach(g, s, d).contains(u)
            implies vset.contains(u) by {
            if !prev.contains(u) {
                assert(step_targets(g, prev).contains(u));
                let v = choose|v: int| prev.contains(v) && step_to(g, v, u);
                assert(vset.contains(v));
            }
        }
    }
}

/// Breadth-first search for the number of hops on a shortest path from
/// `start` to `end`; `None` when no path connects them. The immediate
/// `start == end` case yields `Some(0)`.
#[verifier::loop_isolation(false)]
pub fn find_distance(graph: &Vec<Vec<usize>>, start: usize, end: usize) -> (r: Option<usize>)
    requires
        wf_graph(graph.deep_view()),
        start < graph@.len(),
        end < graph@.len(),
    ensures
        r is Some ==> r->0 < graph@.len()
            && is_shortest_dist(graph.deep_view(), start as int, end as int, r->0 as nat),
        r is Some <==> connected(graph.deep_view(), start as int, end as int),
        start == end ==> r == Some(0usize),
{
    let ghost g = graph.deep_view();
    let n = graph.len();
    let mut visits: Vec<bool> = Vec::new();
    let mut t: usize = 0;
    while t < n
        invariant
            t <= n,
            visits@.len() == t,
            forall|v: int| 0 <= v < t ==> !(#[trigger] visits@[v]),
        decreases n - t,
    {
        visits.push(false);
        t += 1;
    }

    visits[start] = true;
    let mut queue: VecDeque<(usize, usize)> = VecDeque::new();
    queue.push_back((start, 0));
    let ghost mut processed: Set<int> = Set::empty();

    proof {
        assert(reach(g, start as int, 0).contains(start as int));
        assert forall|v: int| 0 <= v < n implies
            ((#[trigger] visits@[v]) <==> (processed.contains(v)
                || exists|i: int| 0 <= i < queue@.len() && (#[trigger] queue@[i]).0 as int == v)) by {
            if visits@[v] {
                assert(v == start as int);
                assert(queue@[0].0 as int == v);
            }
            if exists|i: int| 0 <= i < queue@.len() && (#[trigger] queue@[i]).0 as int == v {
                let i = choose|i: int| 0 <= i < queue@.len() && (#[trigger] queue@[i]).0 as int == v;
                assert(v == start as int);
            }
        }
    }

    while queue.len() > 0
        invariant
            visits@.len() == n,
            processed.finite(),
            processed.len() <= n,
            forall|v: int| #[trigger] processed.contains(v) ==> 0 <= v < n,
            !processed.contains(end as int),
            visits@[start as int],
            forall|i: int| 0 <= i < queue@.len() ==> (#[trigger] queue@[i]).0 < n,
            forall|i: int| 0 <= i < queue@.len()
                ==> is_shortest_dist(g, start as int, (#[trigger] queue@[i]).0 as int, queue@[i].1 as nat),
            forall|i: int, j: int| 0 <= i <= j < queue@.len()
                ==> (#[trigger] queue@[i]).1 <= (#[trigger] queue@[j]).1,
            forall|i: int| 0 <= i < queue@.len() ==> (#[trigger] queue@[i]).1 <= queue@[0].1 + 1,
            forall|i: int| 0 <= i < queue@.len() ==> (#[trigger] queue@[i]).1 <= processed.len(),
            forall|i: int, j: int| 0 <= i < j < queue@.len()
                ==> (#[trigger] queue@[i]).0 != (#[trigger] queue@[j]).0,
            forall|i: int| 0 <= i < queue@.len()
                ==> !processed.contains((#[trigger] queue@[i]).0 as int),
            forall|v: int| 0 <= v < n ==>
                ((#[trigger] visits@[v]) <==> (processed.contains(v)
                    || exists|i: int| 0 <= i < queue@.len() && (#[trigger] queue@[i]).0 as int == v)),
            forall|v: int, w: int| #[trigger] processed.contains(v) && #[trigger] step_to(g, v, w)
                ==> 0 <= w < n && visits@[w],
            queue@.len() > 0 ==> (forall|u: int|
                #[trigger] reach(g, start as int, queue@[0].1 as nat).contains(u)
                    ==> 0 <= u < n && visits@[u]),
        decreases n - processed.len(),
    {
        let ghost queue_at_entry = queue@;
        let popped = queue.pop_front().unwrap();
        let node = popped.0;
        let distance = popped.1;
        let ghost rest0 = queue@;
        let ghost d0 = distance as int;

        proof {
            assert(popped == queue_at_entry[0]);
            assert(is_shortest_dist(g, start as int, node as int, d0 as nat));
            assert(!processed.contains(node as int));
            // the processed set stays strictly inside the node range
            lemma_int_range(0, n as int);
            assert(processed.insert(node as int).subset_of(set_int_range(0, n as int)));
            lemma_len_subset(processed.insert(node as int), set_int_range(0, n as int));
            assert(processed.insert(node as int).len() == processed.len() + 1);
        }

        if node == end {
            proof {
                assert(dist_at_most(g, start as int, end as int, d0 as nat));
                if start == end {
                    assert(reach(g, start as int, 0).contains(end as int));
                    if d0 > 0 {
                        assert(!dist_at_most(g, start as int, end as int, 0));
                        assert(false);
                    }
                }
            }
            return Some(distance);
        }

        proof {
            let processed_before = processed;
            processed = processed.insert(node as int);
            assert forall|v: int| 0 <= v < n implies
                ((#[trigger] visits@[v]) <==> (processed.contains(v)
                    || exists|i: int| 0 <= i < queue@.len()
                        && (#[trigger] queue@[i]).0 as int == v)) by {
                if visits@[v] && v != node as int && !processed_before.contains(v) {
                    let i = choose|i: int| 0 <= i < queue_at_entry.len()
                        && (#[trigger] queue_at_entry[i]).0 as int == v;
                    assert(i != 0);
                    assert(queue@[i - 1] == queue_at_entry[i]);
                }
                if !visits@[v] {
                    if processed.contains(v) {
                        assert(v == node as int);
                        assert(queue_at_entry[0].0 as int == v);
                    }
                    if exists|i: int| 0 <= i < queue@.len()
                        && (#[trigger] queue@[i]).0 as int == v {
                        let i = choose|i: int| 0 <= i < queue@.len()
                            && (#[trigger] queue@[i]).0 as int == v;
                        assert(queue_at_entry[i + 1].0 as int == v);
                    }
                }
            }
            // facts about the remaining prefix of the queue
            assert(forall|i: int| 0 <= i < rest0.len() ==> rest0[i] == queue_at_entry[i + 1]);
            assert forall|i: int| 0 <= i < rest0.len() implies
                d0 <= (#[trigger] rest0[i]).1 <= d0 + 1
                    && !processed.contains(rest0[i].0 as int) by {
                assert(queue_at_entry[i + 1].1 >= queue_at_entry[0].1);
                assert(queue_at_entry[i + 1].0 != queue_at_entry[0].0);
            }
            assert(g[node as int] =~= graph@[node as int]@);
        }

        let row_len = graph[node].len();
        let mut j: usize = 0;
        while j < row_len
            invariant
                j <= row_len,
                row_len == g[node as int].len(),
                processed.contains(node as int),
                processed.len() <= n,
                visits@.len() == n,
                visits@[start as int],
                rest0.len() <= queue@.len(),
                forall|i: int| 0 <= i < rest0.len() ==> #[trigger] queue@[i] == rest0[i],
                forall|i: int| rest0.len() <= i < queue@.len()
                    ==> (#[trigger] queue@[i]).1 == d0 + 1,
                forall|i: int| 0 <= i < queue@.len() ==> (#[trigger] queue@[i]).0 < n,
                forall|i: int| 0 <= i < queue@.len()
                    ==> is_shortest_dist(g, start as int, (#[trigger] queue@[i]).0 as int, queue@[i].1 as nat),
                forall|i: int| 0 <= i < queue@.len() ==> (#[trigger] queue@[i]).1 <= processed.len(),
                forall|i: int, j2: int| 0 <= i < j2 < queue@.len()
                    ==> (#[trigger] queue@[i]).0 != (#[trigger] queue@[j2]).0,
                forall|i: int| 0 <= i < queue@.len()
                    ==> !processed.contains((#[trigger] queue@[i]).0 as int),
                forall|v: int| 0 <= v < n ==>
                    ((#[trigger] visits@[v]) <==> (processed.contains(v)
                        || exists|i: int| 0 <= i < queue@.len() && (#[trigger] queue@[i]).0 as int == v)),
                forall|v: int, w: int| #[trigger] processed.contains(v) && v != node as int
                    && #[trigger] step_to(g, v, w) ==> 0 <= w < n && visits@[w],
                forall|jj: int| 0 <= jj < j ==> visits@[g[node as int][jj] as int]
                    && 0 <= g[node as int][jj] < n,
                forall|u: int| #[trigger] reach(g, start as int, d0 as nat).contains(u)
                    ==> 0 <= u < n && visits@[u],
            decreases row_len - j,
        {
            let neighbor = graph[node][j];
            proof {
                assert(g[node as int][j as int] == neighbor);
                assert(neighbor < n);
            }
            if !visits[neighbor] {
                proof {
                    let w = neighbor as int;
                    let prev = reach(g, start as int, d0 as nat);
                    assert(step_to(g, node as int, w));
                    assert(dist_at_most(g, start as int, node as int, d0 as nat));
                    assert(step_targets(g, prev).contains(w));
                    assert(dist_at_most(g, start as int, w, (d0 + 1) as nat));
                    assert forall|d2: nat| d2 < (d0 + 1) as nat implies
                        !dist_at_most(g, start as int, w, d2) by {
                        lemma_reach_mono(g, start as int, d2, d0 as nat);
                        if dist_at_most(g, start as int, w, d2) {
                            assert(prev.contains(w));
                        }
                    }
                    assert(is_shortest_dist(g, start as int, w, (d0 + 1) as nat));
                    // the new node is in no queue entry and not processed
                    assert forall|i: int| 0 <= i < queue@.len() implies
                        (#[trigger] queue@[i]).0 != neighbor by {
                        if queue@[i].0 == neighbor {
                            assert(visits@[w]);
                        }
                    }
                    assert(!processed.contains(w));
                    // the new distance fits
                    assert(d0 + 1 <= processed.len());
                }
                let ghost visits_before = visits@;
                let ghost queue_before = queue@;
                visits[neighbor] = true;
                queue.push_back((neighbor, distance + 1));
                proof {
                    assert(queue@ == queue_before.push((neighbor, (d0 + 1) as usize)));
                    assert forall|v: int| 0 <= v < n implies
                        ((#[trigger] visits@[v]) <==> (processed.contains(v)
                            || exists|i: int| 0 <= i < queue@.len()
                                && (#[trigger] queue@[i]).0 as int == v)) by {
                        if v == neighbor as int {
                            assert(queue@[queue@.len() - 1].0 as int == v);
                        } else {
                            assert(visits@[v] == visits_before[v]);
                            if visits_before[v] {
                                if !processed.contains(v) {
                                    let i = choose|i: int| 0 <= i < queue_before.len()
                                        && (#[trigger] queue_before[i]).0 as int == v;
                                    assert(queue@[i].0 as int == v);
                                }
                            }
                            if exists|i: int| 0 <= i < queue@.len()
                                && (#[trigger] queue@[i]).0 as int == v {
                                let i = choose|i: int| 0 <= i < queue@.len()
                                    && (#[trigger] queue@[i]).0 as int == v;
                                if i < queue_before.len() {
                                    assert(queue_before[i].0 as int == v);
                                }
                            }
                        }
                    }
                }
            }
            j += 1;
        }

        proof {
            // the processed set is now closed under steps out of `node` too
            assert forall|v: int, w: int| #[trigger] processed.contains(v)
                && #[trigger] step_to(g, v, w) implies 0 <= w < n && visits@[w] by {
                if v == node as int {
                    let jj = choose|jj: int| 0 <= jj < g[node as int].len()
                        && g[node as int][jj] as int == w;
                    assert(visits@[g[node as int][jj] as int]);
                }
            }
            // the queue is still sorted within a one-hop band
            assert forall|i: int, j2: int| 0 <= i <= j2 < queue@.len() implies
                (#[trigger] queue@[i]).1 <= (#[trigger] queue@[j2]).1 by {
                if j2 < rest0.len() {
                    assert(queue_at_entry[i + 1].1 <= queue_at_entry[j2 + 1].1);
                } else if i < rest0.len() {
                    assert(queue@[i].1 <= d0 + 1);
                }
            }
            if queue@.len() > 0 {
                assert(d0 <= queue@[0].1 <= d0 + 1);
                assert forall|i: int| 0 <= i < queue@.len() implies
                    (#[trigger] queue@[i]).1 <= queue@[0].1 + 1 by {
                    if i < rest0.len() && 0 < rest0.len() {
                        assert(queue_at_entry[1int].1 <= queue_at_entry[i + 1].1);
                    }
                }
                // level completeness for the new front of the queue
                if queue@[0].1 == d0 + 1 {
                    let prev = reach(g, start as int, d0 as nat);
                    assert forall|u: int|
                        #[trigger] reach(g, start as int, (d0 + 1) as nat).contains(u)
                            implies 0 <= u < n && visits@[u] by {
                        if !prev.contains(u) {
                            assert(step_targets(g, prev).contains(u));
                            let v = choose|v: int| prev.contains(v) && step_to(g, v, u);
                            assert(0 <= v < n && visits@[v]);
                            if !processed.contains(v) {
                                let i = choose|i: int| 0 <= i < queue@.len()
                                    && (#[trigger] queue@[i]).0 as int == v;
                                if i < rest0.len() {
                                    assert(queue@[i].1 >= queue@[0].1);
                                }
                                assert(queue@[i].1 == d0 + 1);
                                assert(is_shortest_dist(g, start as int, v, (d0 + 1) as nat));
                                assert(!dist_at_most(g, start as int, v, d0 as nat));
                                assert(false);
                            }
                        }
                    }
                    assert(queue@[0].1 as nat == (d0 + 1) as nat);
                }
            }
        }
    }

    proof {
        // everything reachable from `start` has been processed, and `end`
        // never was
        assert(processed.contains(start as int));
        assert forall|v: int, w: int| #[trigger] processed.contains(v)
            && #[trigger] step_to(g, v, w) implies processed.contains(w) by {
            assert(0 <= w < n && visits@[w]);
        }
        assert forall|d: nat| !(#[trigger] dist_at_most(g, start as int, end as int, d)) by {
            lemma_reach_in_closed(g, start as int, processed, d);
        }
        assert(!connected(g, start as int, end as int));
        assert(start != end) by {
            if start == end {
                assert(visits@[start as int]);
            }
        }
    }
    None
}

} // verus!

verus! {

/// The running outcome of the all-pairs tally: the retained distance
/// values in enumeration order, the histogram of pairs by degree of
/// separation (bucket 0 holds the unreachable pairs), and the two pair
/// counters.
pub ghost struct DistanceTally {
    pub dists: Seq<usize>,
    pub buckets: Seq<Seq<(usize, usize)>>,
    pub valid: int,
    pub invalid: int,
}

/// The tally before any pair has been processed: `n` empty buckets.
pub open spec fn tally_init(n: int) -> DistanceTally {
    DistanceTally {
        dists: Seq::empty(),
        buckets: Seq::new(n as nat, |d: int| Seq::empty()),
        valid: 0,
        invalid: 0,
    }
}

/// How one enumerated pair changes the tally. A self-pair is discarded
/// outright: it reaches no bucket and no counter. A connected pair
/// records its shortest distance; an unconnected one records a zero and
/// lands in bucket 0.
pub open spec fn tally_step(g: Seq<Seq<usize>>, t: DistanceTally, s: int, e: int) -> DistanceTally {
    if s == e {
        t
    } else if connected(g, s, e) {
        let d = shortest_dist(g, s, e) as int;
        DistanceTally {
            dists: t.dists.push(shortest_dist(g, s, e) as usize),
            buckets: t.buckets.update(d, t.buckets[d].push((s as usize, e as usize))),
            valid: t.valid + 1,
            invalid: t.invalid,
        }
    } else {
        DistanceTally {
            dists: t.dists.push(0),
            buckets: t.buckets.update(0, t.buckets[0].push((s as usize, e as usize))),
            valid: t.valid,
            invalid: t.invalid + 1,
        }
    }
}

/// The tally after processing every pair `(s', e')` with
/// `0 <= s' <= e' < n` that precedes position `(s, e)` in the
/// lexicographic enumeration the aggregator walks.
pub open spec fn tally_upto(g: Seq<Seq<usize>>, n: int, s: int, e: int) -> DistanceTally
    decreases s, e,
{
    if s <= 0 && e <= 0 {
        tally_init(n)
    } else if e <= s {
        tally_upto(g, n, s - 1, n)
    } else {
        tally_step(g, tally_upto(g, n, s, e - 1), s, e - 1)
    }
}

/// The tally of the whole enumeration over a graph.
pub open spec fn distance_tally(g: Seq<Seq<usize>>) -> DistanceTally {
    tally_upto(g, g.len() as int, g.len() as int, g.len() as int)
}

/// Each processed non-self pair adds exactly one retained value and one
/// tick to exactly one of the two counters; the closed form counts the
/// non-self pairs that precede position `(s, e)`.
pub proof fn lemma_tally_counts(g: Seq<Seq<usize>>, n: int, s: int, e: int)
    requires
        0 <= s <= n,
        s <= e <= n,
    ensures
        tally_upto(g, n, s, e).valid >= 0,
        tally_upto(g, n, s, e).invalid >= 0,
        tally_upto(g, n, s, e).valid + tally_upto(g, n, s, e).invalid
            == tally_upto(g, n, s, e).dists.len(),
        2 * tally_upto(g, n, s, e).dists.len()
            == 2 * s * (n - 1) - s * (s - 1) + (if e > s { 2 * (e - s - 1) } else { 0 }),
    decreases s, e,
{
    if s <= 0 && e <= 0 {
    } else if e <= s {
        lemma_tally_counts(g, n, s - 1, n);
        assert(2 * (s - 1) * (n - 1) - (s - 1) * (s - 2) + 2 * (n - (s - 1) - 1)
            == 2 * s * (n - 1) - s * (s - 1)) by (nonlinear_arith);
    } else {
        lemma_tally_counts(g, n, s, e - 1);
    }
}

/// Walks every unordered pair `(start, end)` with `start <= end`, runs
/// the shortest-path search on each, and returns the retained distance
/// values in enumeration order, the degree-of-separation histogram
/// (bucket 0 collects the unreachable pairs), the count of valid
/// (reachable, non-self) pairs, and the count of invalid (unreachable)
/// pairs. Self-pairs are discarded: of the `u * (u + 1) / 2` enumerated
/// pairs, exactly `u` reach neither a counter nor a bucket.
pub fn calculate_all_distances(adjacency_list: &Vec<Vec<usize>>) -> (r: (
    Vec<usize>,
    Vec<Vec<(usize, usize)>>,
    usize,
    usize,
))
    requires
        wf_graph(adjacency_list.deep_view()),
    ensures
        r.0@ == distance_tally(adjacency_list.deep_view()).dists,
        r.1@.len() == adjacency_list@.len(),
        forall|d: int| 0 <= d < adjacency_list@.len()
            ==> (#[trigger] r.1@[d])@ == distance_tally(adjacency_list.deep_view()).buckets[d],
        r.2 == distance_tally(adjacency_list.deep_view()).valid,
        r.3 == distance_tally(adjacency_list.deep_view()).invalid,
        r.2 + r.3 == r.0@.len(),
        2 * (r.2 + r.3 + adjacency_list@.len())
            == adjacency_list@.len() * (adjacency_list@.len() + 1),
{
    let ghost g = adjacency_list.deep_view();
    let length = adjacency_list.len();
    let mut distances: Vec<usize> = Vec::new();
    let mut organized_by_dist: Vec<Vec<(usize, usize)>> = Vec::new();
    let mut num_connections: usize = 0;
    let mut invalid_connections: usize = 0;

    let mut b: usize = 0;
    while b < length
        invariant
            b <= length,
            organized_by_dist@.len() == b,
            forall|d: int| 0 <= d < b
                ==> (#[trigger] organized_by_dist@[d])@ == Seq::<(usize, usize)>::empty(),
        decreases length - b,
    {
        organized_by_dist.push(Vec::new());
        b += 1;
    }

    let mut start: usize = 0;
    while start < length
        invariant
            start <= length,
            length == adjacency_list@.len(),
            g == adjacency_list.deep_view(),
            wf_graph(g),
            organized_by_dist@.len() == length,
            tally_upto(g, length as int, start as int, start as int).buckets.len() == length,
            distances@ == tally_upto(g, length as int, start as int, start as int).dists,
            forall|d: int| 0 <= d < length ==> (#[trigger] organized_by_dist@[d])@
                == tally_upto(g, length as int, start as int, start as int).buckets[d],
            num_connections == tally_upto(g, length as int, start as int, start as int).valid,
            invalid_connections == tally_upto(g, length as int, start as int, start as int).invalid,
            num_connections + invalid_connections == distances@.len(),
        decreases length - start,
    {
        proof {
            assert(tally_upto(g, length as int, start as int, start as int)
                == tally_upto(g, length as int, start as int, start as int + 0));
        }
        let mut end: usize = start;
        while end < length
            invariant
                start <= end <= length,
                start < length,
                length == adjacency_list@.len(),
                g == adjacency_list.deep_view(),
                wf_graph(g),
                organized_by_dist@.len() == length,
                tally_upto(g, length as int, start as int, end as int).buckets.len() == length,
                distances@ == tally_upto(g, length as int, start as int, end as int).dists,
                forall|d: int| 0 <= d < length ==> (#[trigger] organized_by_dist@[d])@
                    == tally_upto(g, length as int, start as int, end as int).buckets[d],
                num_connections == tally_upto(g, length as int, start as int, end as int).valid,
                invalid_connections == tally_upto(g, length as int, start as int, end as int).invalid,
                num_connections + invalid_connections == distances@.len(),
            decreases length - end,
        {
            let ghost t = tally_upto(g, length as int, start as int, end as int);
            proof {
                lemma_tally_counts(g, length as int, start as int, end as int);
                vstd::std_specs::vec::axiom_spec_len(&distances);
            }
            match find_distance(adjacency_list, start, end) {
                Some(x) => {
                    proof {
                        lemma_shortest_dist_is(g, start as int, end as int, x as nat);
                    }
                    if x != 0 {
                        proof {
                            if start == end {
                                assert(reach(g, start as int, 0).contains(end as int));
                                assert(!dist_at_most(g, start as int, end as int, 0));
                                assert(false);
                            }
                        }
                        distances.push(x);
                        organized_by_dist[x].push((start, end));
                        proof {
                            vstd::std_specs::vec::axiom_spec_len(&distances);
                        }
                        num_connections += 1;
                    } else {
                        proof {
                            assert(dist_at_most(g, start as int, end as int, 0));
                            assert(reach(g, start as int, 0).contains(end as int));
                            assert(start == end);
                        }
                    }
                },
                None => {
                    proof {
                        assert(!connected(g, start as int, end as int));
                        assert(start != end) by {
                            if start == end {
                                assert(reach(g, start as int, 0).contains(end as int));
                                assert(dist_at_most(g, start as int, end as int, 0));
                            }
                        }
                    }
                    distances.push(0);
                    organized_by_dist[0].push((start, end));
                    proof {
                        vstd::std_specs::vec::axiom_spec_len(&distances);
                    }
                    invalid_connections += 1;
                },
            }
            proof {
                let t1 = tally_upto(g, length as int, start as int, end as int + 1);
                assert(t1 == tally_step(g, t, start as int, end as int));
                assert(t1.buckets.len() == length);
            }
            end += 1;
        }
        proof {
            assert(tally_upto(g, length as int, start as int + 1, start as int + 1)
                == tally_upto(g, length as int, start as int, length as int));
        }
        start += 1;
    }
    proof {
        lemma_tally_counts(g, length as int, length as int, length as int);
        let tfin = distance_tally(g);
        assert(g.len() == length as int);
        assert(tfin == tally_upto(g, length as int, length as int, length as int));
        assert(distances@ == tfin.dists);
        assert(2 * tfin.dists.len()
            == 2 * (length as int) * (length as int - 1) - (length as int) * (length as int - 1));
        assert(2 * (length as int) * (length as int - 1) - (length as int) * (length as int - 1)
            == (length as int) * (length as int - 1)) by (nonlinear_arith);
        assert(length as int * (length as int - 1) + 2 * (length as int)
            == length as int * (length as int + 1)) by (nonlinear_arith);
        assert(2 * (num_connections + invalid_connections + length as int)
            == length as int * (length as int + 1));
    }
    (distances, organized_by_dist, num_connections, invalid_connections)
}

} // verus!
