//! Finite partially ordered sets, given by their covering relation or by the
//! whole strict order, with the graph algorithms that turn one into the other.
use crate::bitset::BitSet;
use crate::coloring::{lemma_perm_covers, lemma_pigeon};
use vstd::multiset::Multiset;
use vstd::prelude::*;

verus! {

broadcast use vstd::seq_lib::group_to_multiset_ensures;

/// Error returned when constructing a `Poset` from invalid input.
#[derive(Debug, PartialEq, Eq, Structural)]
pub enum PosetError {
    /// The edge set contains a directed cycle, so no valid partial order exists.
    Cycle,
}

// ---- directed graphs on `0..n` -----------------------------------------------

/// Edge `(u, v)` is listed.
pub open spec fn has_edge(edges: Seq<(u32, u32)>, u: int, v: int) -> bool {
    exists|k: int| 0 <= k < edges.len() && edges[k].0 == u && edges[k].1 == v
}

/// Every edge joins two of the nodes `0..n`.
pub open spec fn edges_in_range(n: nat, edges: Seq<(u32, u32)>) -> bool {
    forall|k: int| 0 <= k < edges.len() ==> #[trigger] edges[k].0 < n && edges[k].1 < n
}

/// `p` is a walk of at least one step along the edges.
pub open spec fn is_walk(edges: Seq<(u32, u32)>, p: Seq<int>) -> bool {
    &&& p.len() >= 2
    &&& forall|i: int| 0 <= i < p.len() - 1 ==> has_edge(edges, #[trigger] p[i], p[i + 1])
}

/// `v` can be reached from `u` in one or more steps.
pub open spec fn reaches(edges: Seq<(u32, u32)>, u: int, v: int) -> bool {
    exists|p: Seq<int>| #[trigger] is_walk(edges, p) && p[0] == u && p.last() == v
}

/// `o` lists the nodes `0..n`, each once, every edge pointing forward.
pub open spec fn is_topological(n: nat, edges: Seq<(u32, u32)>, o: Seq<usize>) -> bool {
    &&& o.len() == n
    &&& forall|i: int| 0 <= i < n ==> #[trigger] o[i] < n
    &&& forall|i: int, j: int| 0 <= i < j < n ==> o[i] != o[j]
    &&& forall|k: int, i: int, j: int|
        #![trigger o[i], o[j], edges[k]]
        0 <= k < edges.len() && 0 <= i < n && 0 <= j < n && o[i] == edges[k].0
            && o[j] == edges[k].1 ==> i < j
}

/// The graph on `0..n` has a topological order, i.e. no directed cycle.
pub open spec fn acyclic(n: nat, edges: Seq<(u32, u32)>) -> bool {
    exists|o: Seq<usize>| is_topological(n, edges, o)
}

/// Some non-empty set of nodes has, for each of its nodes, an edge into it
/// from the set: what is left when no topological order can be completed.
pub open spec fn cycle_core(n: nat, edges: Seq<(u32, u32)>) -> bool {
    exists|r: Set<int>, v0: int|
        #![trigger r.contains(v0)]
        r.contains(v0) && (forall|v: int| r.contains(v) ==> 0 <= v < n) && (forall|v: int|
            #[trigger] r.contains(v) ==> exists|k: int|
                0 <= k < edges.len() && edges[k].1 == v && r.contains(edges[k].0 as int))
}

/// A weight that grows along every edge rules out a cycle core.
pub proof fn lemma_potential_no_core(n: nat, edges: Seq<(u32, u32)>, pot: spec_fn(int) -> nat)
    requires
        forall|k: int| 0 <= k < edges.len() ==> pot(#[trigger] edges[k].0 as int) < pot(edges[k].1 as int),
    ensures
        !cycle_core(n, edges),
{
    if cycle_core(n, edges) {
        let (r, v0) = choose|r: Set<int>, v0: int|
            #![trigger r.contains(v0)]
            r.contains(v0) && (forall|v: int| r.contains(v) ==> 0 <= v < n) && (forall|v: int|
                #[trigger] r.contains(v) ==> exists|k: int|
                    0 <= k < edges.len() && edges[k].1 == v && r.contains(edges[k].0 as int));
        lemma_descent(edges, pot, r, pot(v0) as int);
    }
}

proof fn lemma_descent(edges: Seq<(u32, u32)>, pot: spec_fn(int) -> nat, r: Set<int>, c: int)
    requires
        forall|k: int| 0 <= k < edges.len() ==> pot(#[trigger] edges[k].0 as int) < pot(edges[k].1 as int),
        forall|v: int|
            #[trigger] r.contains(v) ==> exists|k: int|
                0 <= k < edges.len() && edges[k].1 == v && r.contains(edges[k].0 as int),
    ensures
        forall|v: int| #[trigger] r.contains(v) ==> pot(v) > c,
    decreases c + 1,
{
    if c >= 0 {
        lemma_descent(edges, pot, r, c - 1);
        assert forall|v: int| #[trigger] r.contains(v) implies pot(v) > c by {
            let k = choose|k: int| 0 <= k < edges.len() && edges[k].1 == v && r.contains(edges[k].0 as int);
            assert(pot(edges[k].0 as int) > c - 1);
        }
    }
}

/// The edges into `v` whose source is not in `done`.
pub open spec fn cnt_in(edges: Seq<(u32, u32)>, v: int, done: Seq<usize>) -> nat
    decreases edges.len(),
{
    if edges.len() == 0 {
        0
    } else {
        cnt_in(edges.drop_last(), v, done) + if edges.last().1 == v && !done.contains(
            edges.last().0 as usize,
        ) {
            1nat
        } else {
            0nat
        }
    }
}

/// How often edge `(u, v)` is listed.
pub open spec fn mult(edges: Seq<(u32, u32)>, u: int, v: int) -> nat
    decreases edges.len(),
{
    if edges.len() == 0 {
        0
    } else {
        mult(edges.drop_last(), u, v) + if edges.last().0 == u && edges.last().1 == v {
            1nat
        } else {
            0nat
        }
    }
}

proof fn lemma_cnt_in_zero(edges: Seq<(u32, u32)>, v: int, done: Seq<usize>)
    ensures
        cnt_in(edges, v, done) == 0 <==> forall|k: int|
            0 <= k < edges.len() && #[trigger] edges[k].1 == v ==> done.contains(
                edges[k].0 as usize,
            ),
    decreases edges.len(),
{
    if edges.len() > 0 {
        lemma_cnt_in_zero(edges.drop_last(), v, done);
        if cnt_in(edges, v, done) == 0 {
            assert forall|k: int| 0 <= k < edges.len() && #[trigger] edges[k].1 == v implies done.contains(
                edges[k].0 as usize,
            ) by {
                if k < edges.len() - 1 {
                    assert(edges.drop_last()[k] == edges[k]);
                }
            }
        } else {
            if cnt_in(edges.drop_last(), v, done) > 0 {
                let k = choose|k: int|
                    0 <= k < edges.drop_last().len() && #[trigger] edges.drop_last()[k].1 == v
                        && !done.contains(edges.drop_last()[k].0 as usize);
                assert(edges[k] == edges.drop_last()[k]);
            } else {
                assert(edges[edges.len() - 1].1 == v);
            }
        }
    }
}

proof fn lemma_cnt_in_done(edges: Seq<(u32, u32)>, u: usize, v: int, done: Seq<usize>)
    requires
        !done.contains(u),
    ensures
        cnt_in(edges, v, done) == cnt_in(edges, v, done.push(u)) + mult(edges, u as int, v),
    decreases edges.len(),
{
    if edges.len() > 0 {
        lemma_cnt_in_done(edges.drop_last(), u, v, done);
        let e = edges.last();
        if done.push(u).contains(e.0 as usize) && !done.contains(e.0 as usize) {
            let x = choose|x: int| 0 <= x < done.push(u).len() && done.push(u)[x] == e.0 as usize;
            if x < done.len() {
                assert(done[x] == e.0 as usize);
            }
        }
        if done.contains(e.0 as usize) {
            let x = choose|x: int| 0 <= x < done.len() && done[x] == e.0 as usize;
            assert(done.push(u)[x] == e.0 as usize);
        }
        if e.0 as usize == u {
            assert(done.push(u)[done.len() as int] == u);
        }
    }
}

proof fn lemma_mult_push(edges: Seq<(u32, u32)>, e: (u32, u32), u: int, v: int)
    ensures
        mult(edges.push(e), u, v) == mult(edges, u, v) + if e.0 == u && e.1 == v {
            1nat
        } else {
            0nat
        },
{
    assert(edges.push(e).drop_last() == edges);
}

proof fn lemma_cnt_in_push(edges: Seq<(u32, u32)>, e: (u32, u32), v: int, done: Seq<usize>)
    ensures
        cnt_in(edges.push(e), v, done) == cnt_in(edges, v, done) + if e.1 == v && !done.contains(
            e.0 as usize,
        ) {
            1nat
        } else {
            0nat
        },
{
    assert(edges.push(e).drop_last() == edges);
}

/// No order on `R`'s elements can put each after one of its in-neighbours
/// in `R`: a non-empty `R` where every node has such a neighbour rules out a
/// topological order.
proof fn lemma_no_topological(n: nat, edges: Seq<(u32, u32)>, r: Set<int>, v0: int)
    requires
        edges_in_range(n, edges),
        r.contains(v0),
        forall|v: int| r.contains(v) ==> 0 <= v < n,
        forall|v: int|
            #[trigger] r.contains(v) ==> exists|k: int|
                0 <= k < edges.len() && edges[k].1 == v && r.contains(edges[k].0 as int),
    ensures
        !acyclic(n, edges),
{
    if acyclic(n, edges) {
        let o = choose|o: Seq<usize>| is_topological(n, edges, o);
        lemma_perm_covers(o, n);
        lemma_topological_avoids(n, edges, r, o, n as int);
        assert(o.contains(v0 as usize));
        let j = choose|j: int| 0 <= j < o.len() && o[j] == v0 as usize;
        assert(!r.contains(o[j] as int));
    }
}

proof fn lemma_topological_avoids(
    n: nat,
    edges: Seq<(u32, u32)>,
    r: Set<int>,
    o: Seq<usize>,
    i: int,
)
    requires
        edges_in_range(n, edges),
        is_topological(n, edges, o),
        forall|u: usize| u < n ==> o.contains(u),
        forall|v: int|
            #[trigger] r.contains(v) ==> exists|k: int|
                0 <= k < edges.len() && edges[k].1 == v && r.contains(edges[k].0 as int),
        0 <= i <= n,
    ensures
        forall|j: int| 0 <= j < i ==> !r.contains(#[trigger] o[j] as int),
    decreases i,
{
    if i > 0 {
        lemma_topological_avoids(n, edges, r, o, i - 1);
        let x = o[i - 1] as int;
        if r.contains(x) {
            let k = choose|k: int|
                0 <= k < edges.len() && edges[k].1 == x && r.contains(edges[k].0 as int);
            let a = edges[k].0;
            assert(a < n);
            assert(o.contains(a as usize));
            let ia = choose|ia: int| 0 <= ia < o.len() && o[ia] == a as usize;
            assert(o[ia] == edges[k].0 && o[i - 1] == edges[k].1);
            assert(ia < i - 1);
            assert(!r.contains(o[ia] as int));
        }
    }
}

/// A walk visits nodes in increasing topological position: the positions
/// of its first node and of its node `i`, in that order.
pub(crate) proof fn lemma_walk_forward(
    n: nat,
    edges: Seq<(u32, u32)>,
    o: Seq<usize>,
    p: Seq<int>,
    i: int,
) -> (ab: (int, int))
    requires
        edges_in_range(n, edges),
        is_topological(n, edges, o),
        is_walk(edges, p),
        1 <= i < p.len(),
    ensures
        0 <= ab.0 < ab.1 < n,
        o[ab.0] == p[0],
        o[ab.1] == p[i],
    decreases i,
{
    lemma_perm_covers(o, n);
    assert(has_edge(edges, p[i - 1], p[i]));
    let k = choose|k: int| 0 <= k < edges.len() && edges[k].0 == p[i - 1] && edges[k].1 == p[i];
    assert(o.contains(edges[k].0 as usize));
    assert(o.contains(edges[k].1 as usize));
    let a = choose|a: int| 0 <= a < o.len() && o[a] == edges[k].0 as usize;
    let b = choose|b: int| 0 <= b < o.len() && o[b] == edges[k].1 as usize;
    assert(o[a] == edges[k].0 && o[b] == edges[k].1);
    assert(a < b);
    if i > 1 {
        let (a0, b0) = lemma_walk_forward(n, edges, o, p, i - 1);
        assert(b0 == a);
        (a0, b)
    } else {
        (a, b)
    }
}

/// A graph with a topological order has no directed cycle: no node reaches
/// itself.
pub proof fn lemma_acyclic_no_cycle(n: nat, edges: Seq<(u32, u32)>, v: int)
    requires
        edges_in_range(n, edges),
        acyclic(n, edges),
    ensures
        !reaches(edges, v, v),
{
    if reaches(edges, v, v) {
        let o = choose|o: Seq<usize>| is_topological(n, edges, o);
        let p = choose|p: Seq<int>| #[trigger] is_walk(edges, p) && p[0] == v && p.last() == v;
        let (a, b) = lemma_walk_forward(n, edges, o, p, p.len() - 1);
        assert(o[a] == o[b]);
    }
}

/// Distinct values below `n` are at most `n` many.
pub(crate) proof fn lemma_distinct_bound(s: Seq<usize>, n: nat)
    requires
        forall|i: int| 0 <= i < s.len() ==> #[trigger] s[i] < n,
        forall|i: int, j: int| 0 <= i < j < s.len() ==> s[i] != s[j],
    ensures
        s.len() <= n,
{
    broadcast use vstd::seq_lib::seq_to_set_is_finite;

    assert(s.no_duplicates()) by {
        assert forall|i: int, j: int| 0 <= i < s.len() && 0 <= j < s.len() && i != j implies s[i]
            != s[j] by {
            if i < j {
            } else {
            }
        }
    }
    s.unique_seq_to_set();
    let f = |x: usize| x as int;
    let image = s.to_set().map(f);
    assert(vstd::relations::injective_on(f, s.to_set()));
    vstd::set_lib::lemma_map_size(s.to_set(), image, f);
    vstd::set_lib::lemma_int_range(0, n as int);
    assert forall|x: int| image.contains(x) implies vstd::set_lib::set_int_range(0, n as int).contains(
        x,
    ) by {
        let y = choose|y: usize| s.to_set().contains(y) && f(y) == x;
        let i = choose|i: int| 0 <= i < s.len() && s[i] == y;
    }
    vstd::set_lib::lemma_len_subset(image, vstd::set_lib::set_int_range(0, n as int));
}

/// A listed edge is an edge.
proof fn lemma_mult_pos(edges: Seq<(u32, u32)>, u: int, v: int)
    ensures
        mult(edges, u, v) > 0 ==> has_edge(edges, u, v),
    decreases edges.len(),
{
    if edges.len() > 0 {
        lemma_mult_pos(edges.drop_last(), u, v);
        if mult(edges.drop_last(), u, v) > 0 {
            let k = choose|k: int|
                0 <= k < edges.drop_last().len() && edges.drop_last()[k].0 == u
                    && edges.drop_last()[k].1 == v;
            assert(edges[k] == edges.drop_last()[k]);
        } else if mult(edges, u, v) > 0 {
            assert(edges[edges.len() - 1] == edges.last());
        }
    }
}

/// Kahn's topological sort of the nodes `0..n`: repeatedly output a node
/// with no remaining in-edges, first come first served, each node's
/// successors taken in ascending order. Returns `None` if the graph has a
/// cycle.
pub(crate) fn kahn_topo_sort(n: usize, edges: &[(u32, u32)]) -> (r: Option<Vec<usize>>)
    requires
        edges_in_range(n as nat, edges@),
    ensures
        match r {
            Some(o) => is_topological(n as nat, edges@, o@),
            None => !acyclic(n as nat, edges@) && cycle_core(n as nat, edges@),
        },
{
    let ghost es = edges@;
    let mut in_degree: Vec<usize> = Vec::new();
    let mut pred: Vec<Vec<usize>> = Vec::new();
    let mut adj: Vec<Vec<usize>> = Vec::new();
    let mut i: usize = 0;
    while i < n
        invariant
            i <= n,
            in_degree@.len() == i,
            pred@.len() == i,
            adj@.len() == i,
            forall|v: int| 0 <= v < i ==> #[trigger] in_degree@[v] == 0,
            forall|v: int| 0 <= v < i ==> #[trigger] pred@[v]@ == Seq::<usize>::empty(),
            forall|v: int| 0 <= v < i ==> #[trigger] adj@[v]@ == Seq::<usize>::empty(),
        decreases n - i,
    {
        in_degree.push(0);
        pred.push(Vec::new());
        adj.push(Vec::new());
        i = i + 1;
    }
    // In-degrees, and the sources of each node's in-edges.
    let mut k: usize = 0;
    while k < edges.len()
        invariant
            es == edges@,
            edges_in_range(n as nat, es),
            k <= es.len(),
            in_degree@.len() == n,
            pred@.len() == n,
            forall|v: int| 0 <= v < n ==> #[trigger] in_degree@[v] == cnt_in(es.take(k as int), v, Seq::<usize>::empty()),
            forall|v: int| 0 <= v < n ==> #[trigger] in_degree@[v] <= k,
            forall|v: int, u: usize|
                0 <= v < n ==> #[trigger] pred@[v]@.to_multiset().count(u) == mult(
                    es.take(k as int),
                    u as int,
                    v,
                ),
            forall|v: int, j: int|
                0 <= v < n && 0 <= j < pred@[v]@.len() ==> #[trigger] pred@[v]@[j] < n,
        decreases es.len() - k,
    {
        let (u, v) = edges[k];
        assert(es[k as int] == (u, v));
        let u = u as usize;
        let v = v as usize;
        proof {
            assert(es.take(k + 1) == es.take(k as int).push(es[k as int]));
            assert forall|w: int| 0 <= w < n implies #[trigger] cnt_in(es.take(k + 1), w, Seq::<usize>::empty())
                == cnt_in(es.take(k as int), w, Seq::<usize>::empty()) + if w == v {
                1nat
            } else {
                0nat
            } by {
                lemma_cnt_in_push(es.take(k as int), es[k as int], w, Seq::<usize>::empty());
            }
            assert forall|w: int, x: usize| 0 <= w < n implies #[trigger] mult(
                es.take(k + 1),
                x as int,
                w,
            ) == mult(es.take(k as int), x as int, w) + if x == u && w == v {
                1nat
            } else {
                0nat
            } by {
                lemma_mult_push(es.take(k as int), es[k as int], x as int, w);
            }
        }
        in_degree.set(v, in_degree[v] + 1);
        pred[v].push(u);
        k = k + 1;
    }
    assert(es.take(es.len() as int) == es);
    // Successor lists in ascending order: node `v` is appended, once per
    // edge, to the list of each of its sources, `v` by `v`.
    let mut v: usize = 0;
    while v < n
        invariant
            es == edges@,
            edges_in_range(n as nat, es),
            v <= n,
            adj@.len() == n,
            pred@.len() == n,
            forall|w: int, u: usize|
                0 <= w < n ==> #[trigger] pred@[w]@.to_multiset().count(u) == mult(es, u as int, w),
            forall|w: int, j: int|
                0 <= w < n && 0 <= j < pred@[w]@.len() ==> #[trigger] pred@[w]@[j] < n,
            forall|u: int, w: usize|
                0 <= u < n ==> #[trigger] adj@[u]@.to_multiset().count(w) == if w < v {
                    mult(es, u, w as int)
                } else {
                    0
                },
            forall|u: int, j: int|
                0 <= u < n && 0 <= j < adj@[u]@.len() ==> #[trigger] adj@[u]@[j] < v,
        decreases n - v,
    {
        let ps = &pred[v];
        let mut j: usize = 0;
        while j < ps.len()
            invariant
                v < n,
                adj@.len() == n,
                ps@ == pred@[v as int]@,
                forall|w: int, j: int|
                    0 <= w < n && 0 <= j < pred@[w]@.len() ==> #[trigger] pred@[w]@[j] < n,
                j <= ps@.len(),
                forall|u: int, w: usize|
                    0 <= u < n ==> #[trigger] adj@[u]@.to_multiset().count(w) == if w < v {
                        mult(es, u, w as int)
                    } else if w == v {
                        ps@.take(j as int).to_multiset().count(u as usize) as nat
                    } else {
                        0
                    },
                forall|u: int, j: int|
                    0 <= u < n && 0 <= j < adj@[u]@.len() ==> #[trigger] adj@[u]@[j] <= v,
            decreases ps@.len() - j,
        {
            let u = ps[j];
            assert(ps@[j as int] < n);
            assert(ps@.take(j + 1) == ps@.take(j as int).push(u));
            adj[u].push(v);
            j = j + 1;
        }
        assert(ps@.take(ps@.len() as int) == ps@);
        v = v + 1;
    }
    let mut queue: Vec<usize> = Vec::new();
    let mut i: usize = 0;
    while i < n
        invariant
            es == edges@,
            i <= n,
            in_degree@.len() == n,
            forall|x: int| 0 <= x < queue@.len() ==> #[trigger] queue@[x] < i,
            forall|x: int, y: int| 0 <= x < y < queue@.len() ==> queue@[x] != queue@[y],
            forall|w: usize| w < i ==> (#[trigger] queue@.contains(w) <==> in_degree@[w as int] == 0),
            forall|x: int, k: int|
                0 <= x < queue@.len() && 0 <= k < es.len() && #[trigger] queue@[x] == #[trigger] es[k].1
                    ==> queue@.take(x).contains(es[k].0 as usize),
            forall|v: int| 0 <= v < n ==> #[trigger] in_degree@[v] == cnt_in(es, v, Seq::<usize>::empty()),
        decreases n - i,
    {
        let ghost old_q = queue@;
        if in_degree[i] == 0 {
            proof {
                lemma_cnt_in_zero(es, i as int, Seq::<usize>::empty());
            }
            queue.push(i);
            proof {
                assert forall|x: int, k: int|
                    0 <= x < queue@.len() && 0 <= k < es.len() && #[trigger] queue@[x]
                        == #[trigger] es[k].1 implies queue@.take(x).contains(es[k].0 as usize) by {
                    if x < old_q.len() {
                        assert(queue@.take(x) == old_q.take(x));
                    } else {
                        assert(!Seq::<usize>::empty().contains(es[k].0 as usize));
                    }
                }
            }
        }
        proof {
            assert forall|w: usize| w < i + 1 implies (#[trigger] queue@.contains(w) <==> in_degree@[w as int]
                == 0) by {
                if w < i {
                    assert(old_q.contains(w) <==> in_degree@[w as int] == 0);
                    if queue@.contains(w) {
                        let x = choose|x: int| 0 <= x < queue@.len() && queue@[x] == w;
                        assert(old_q[x] == w);
                    }
                    if old_q.contains(w) {
                        let x = choose|x: int| 0 <= x < old_q.len() && old_q[x] == w;
                        assert(queue@[x] == w);
                    }
                } else {
                    if in_degree@[w as int] == 0 {
                        assert(queue@[old_q.len() as int] == w);
                    } else {
                        if queue@.contains(w) {
                            let x = choose|x: int| 0 <= x < queue@.len() && queue@[x] == w;
                            assert(old_q[x] < i);
                        }
                    }
                }
            }
        }
        i = i + 1;
    }
    assert forall|w: usize| w < n implies (#[trigger] queue@.contains(w) <==> in_degree@[w as int] == 0) by {}
    let mut head: usize = 0;
    assert(queue@.take(0) =~= Seq::<usize>::empty());
    proof {
        lemma_distinct_bound(queue@, n as nat);
        assert forall|u: int, w: usize| 0 <= u < n && w >= n implies mult(es, u, w as int) == 0 by {
            lemma_mult_pos(es, u, w as int);
        }
    }
    while head < queue.len()
        invariant
            es == edges@,
            edges_in_range(n as nat, es),
            head <= queue@.len() <= n,
            in_degree@.len() == n,
            adj@.len() == n,
            forall|u: int, w: usize|
                0 <= u < n ==> #[trigger] adj@[u]@.to_multiset().count(w) == mult(es, u, w as int),
            forall|u: int, j: int|
                0 <= u < n && 0 <= j < adj@[u]@.len() ==> #[trigger] adj@[u]@[j] < n,
            forall|x: int| 0 <= x < queue@.len() ==> #[trigger] queue@[x] < n,
            forall|x: int, y: int| 0 <= x < y < queue@.len() ==> queue@[x] != queue@[y],
            forall|w: usize| w < n ==> (#[trigger] queue@.contains(w) <==> in_degree@[w as int] == 0),
            forall|x: int, k: int|
                0 <= x < queue@.len() && 0 <= k < es.len() && #[trigger] queue@[x] == #[trigger] es[k].1
                    ==> queue@.take(x).contains(es[k].0 as usize),
            forall|v: int|
                0 <= v < n ==> #[trigger] in_degree@[v] == cnt_in(
                    es,
                    v,
                    queue@.take(head as int),
                ),
        decreases n - head,
    {
        let u = queue[head];
        let ghost done = queue@.take(head as int);
        let ghost done2 = queue@.take(head + 1);
        proof {
            assert(!done.contains(u)) by {
                if done.contains(u) {
                    let x = choose|x: int| 0 <= x < head && done[x] == u;
                    assert(queue@[x] == queue@[head as int]);
                }
            }
            assert(done2 == done.push(u));
            assert forall|v: int| 0 <= v < n implies cnt_in(es, v, done) == cnt_in(es, v, done2)
                + mult(es, u as int, v) by {
                lemma_cnt_in_done(es, u, v, done);
            }
        }
        head = head + 1;
        let succ = &adj[u];
        let mut j: usize = 0;
        assert(succ@.skip(0) == succ@);
        while j < succ.len()
            invariant
                es == edges@,
                edges_in_range(n as nat, es),
                head <= queue@.len() <= n,
                u < n,
                succ@ == adj@[u as int]@,
                forall|j: int| 0 <= j < succ@.len() ==> #[trigger] succ@[j] < n,
                j <= succ@.len(),
                in_degree@.len() == n,
                done2 == queue@.take(head as int),
                forall|x: int| 0 <= x < queue@.len() ==> #[trigger] queue@[x] < n,
                forall|x: int, y: int| 0 <= x < y < queue@.len() ==> queue@[x] != queue@[y],
                forall|w: usize| w < n ==> (#[trigger] queue@.contains(w) <==> in_degree@[w as int] == 0),
                forall|x: int, k: int|
                    0 <= x < queue@.len() && 0 <= k < es.len() && #[trigger] queue@[x] == #[trigger] es[k].1
                        ==> queue@.take(x).contains(es[k].0 as usize),
                forall|v: int|
                    0 <= v < n ==> #[trigger] in_degree@[v] == cnt_in(es, v, done2)
                        + succ@.skip(j as int).to_multiset().count(v as usize),
            decreases succ@.len() - j,
        {
            let w = succ[j];
            proof {
                assert(succ@.skip(j as int) == seq![w] + succ@.skip(j + 1));
                assert(succ@.skip(j as int).to_multiset() == succ@.skip(j + 1).to_multiset().insert(w)) by {
                    vstd::seq_lib::lemma_multiset_commutative(seq![w], succ@.skip(j + 1));
                    assert(seq![w].to_multiset() =~= Multiset::<usize>::empty().insert(w)) by {
                        assert(seq![w] == Seq::<usize>::empty().push(w));
                    }
                }
            }
            let ghost deg0 = in_degree@;
            in_degree.set(w, in_degree[w] - 1);
            assert(forall|z: usize| z < n && z != w ==> in_degree@[z as int] == deg0[z as int]);
            if in_degree[w] == 0 {
                proof {
                    lemma_cnt_in_zero(es, w as int, done2);
                    assert forall|k: int| 0 <= k < es.len() && #[trigger] es[k].1 == w implies queue@.take(
                        queue@.len() as int,
                    ).contains(es[k].0 as usize) by {
                        assert(done2.contains(es[k].0 as usize));
                        let x = choose|x: int| 0 <= x < head && done2[x] == es[k].0 as usize;
                        assert(queue@.take(queue@.len() as int)[x] == es[k].0 as usize);
                    }
                    assert(!queue@.contains(w)) by {
                        if queue@.contains(w) {
                        }
                    }
                }
                let ghost old_q = queue@;
                queue.push(w);
                proof {
                    assert(old_q.take(old_q.len() as int) == old_q);
                    lemma_distinct_bound(queue@, n as nat);
                    assert(queue@.take(head as int) == old_q.take(head as int));
                    assert forall|x: int, k: int|
                        0 <= x < queue@.len() && 0 <= k < es.len() && #[trigger] queue@[x]
                            == #[trigger] es[k].1 implies queue@.take(x).contains(es[k].0 as usize) by {
                        if x < old_q.len() {
                            assert(queue@.take(x) == old_q.take(x));
                        } else {
                            assert(queue@.take(x) == old_q);
                        }
                    }
                    assert forall|x: int, y: int| 0 <= x < y < queue@.len() implies queue@[x] != queue@[y] by {
                        if y == old_q.len() {
                            assert(old_q.contains(queue@[x]));
                        }
                    }
                    assert forall|z: usize| z < n implies (#[trigger] queue@.contains(z) <==> in_degree@[z as int]
                        == 0) by {
                        if z != w {
                            assert(old_q.contains(z) <==> deg0[z as int] == 0);
                            if queue@.contains(z) {
                                let x = choose|x: int| 0 <= x < queue@.len() && queue@[x] == z;
                                assert(old_q[x] == z);
                            }
                            if old_q.contains(z) {
                                let x = choose|x: int| 0 <= x < old_q.len() && old_q[x] == z;
                                assert(queue@[x] == z);
                            }
                        } else {
                            assert(queue@[old_q.len() as int] == w);
                        }
                    }
                }
            }
            j = j + 1;
        }
        assert(succ@.skip(succ@.len() as int).to_multiset() =~= Multiset::<usize>::empty());
    }
    if queue.len() == n {
        proof {
            assert forall|k: int, i: int, j: int|
                #![trigger queue@[i], queue@[j], es[k]]
                0 <= k < es.len() && 0 <= i < n && 0 <= j < n && queue@[i] == es[k].0
                    && queue@[j] == es[k].1 implies i < j by {
                assert(queue@.take(j).contains(es[k].0 as usize));
                let x = choose|x: int| 0 <= x < j && queue@.take(j)[x] == es[k].0 as usize;
                assert(queue@[x] == queue@[i]);
                if x != i {
                    if x < i {
                    } else {
                    }
                }
            }
        }
        Some(queue)
    } else {
        proof {
            if forall|x: usize| x < n ==> queue@.contains(x) {
                lemma_pigeon(queue@, n as nat);
            }
            let missing = choose|x: usize| x < n && !queue@.contains(x);
            let done = queue@.take(head as int);
            assert(done == queue@);
            let r = Set::new(|v: int| 0 <= v < n && !queue@.contains(v as usize));
            assert forall|v: int| #[trigger] r.contains(v) implies exists|k: int|
                0 <= k < es.len() && es[k].1 == v && r.contains(es[k].0 as int) by {
                assert(in_degree@[v] != 0);
                lemma_cnt_in_zero(es, v, done);
                let k = choose|k: int|
                    0 <= k < es.len() && #[trigger] es[k].1 == v && !done.contains(es[k].0 as usize);
                assert(es[k].0 < n);
            }
            lemma_no_topological(n as nat, es, r, missing as int);
            assert(r.contains(missing as int));
        }
        None
    }
}


// ---- reachability -------------------------------------------------------------

/// One step then the rest: `v` is reachable from `u` exactly if it is a
/// successor of `u` or reachable from one.
proof fn lemma_reach_step(edges: Seq<(u32, u32)>, u: int, v: int)
    ensures
        reaches(edges, u, v) <==> (has_edge(edges, u, v) || exists|w: int|
            has_edge(edges, u, w) && #[trigger] reaches(edges, w, v)),
{
    if reaches(edges, u, v) {
        let p = choose|p: Seq<int>| #[trigger] is_walk(edges, p) && p[0] == u && p.last() == v;
        if p.len() == 2 {
            assert(has_edge(edges, p[0], p[1]));
        } else {
            let q = p.drop_first();
            assert(is_walk(edges, q)) by {
                assert forall|i: int| 0 <= i < q.len() - 1 implies has_edge(edges, #[trigger] q[i], q[i + 1]) by {
                    assert(q[i] == p[i + 1] && q[i + 1] == p[i + 2]);
                    assert(has_edge(edges, p[i + 1], p[i + 2]));
                }
            }
            assert(has_edge(edges, p[0], p[1]));
            assert(reaches(edges, p[1], v));
        }
    }
    if has_edge(edges, u, v) {
        let p = seq![u, v];
        assert(is_walk(edges, p)) by {
            assert forall|i: int| 0 <= i < p.len() - 1 implies has_edge(edges, #[trigger] p[i], p[i + 1]) by {
                assert(i == 0);
            }
        }
        assert(reaches(edges, u, v));
    }
    if exists|w: int| has_edge(edges, u, w) && #[trigger] reaches(edges, w, v) {
        let w = choose|w: int| has_edge(edges, u, w) && #[trigger] reaches(edges, w, v);
        let q = choose|q: Seq<int>| #[trigger] is_walk(edges, q) && q[0] == w && q.last() == v;
        let p = seq![u] + q;
        assert(is_walk(edges, p)) by {
            assert forall|i: int| 0 <= i < p.len() - 1 implies has_edge(edges, #[trigger] p[i], p[i + 1]) by {
                if i == 0 {
                    assert(p[0] == u && p[1] == w);
                } else {
                    assert(p[i] == q[i - 1] && p[i + 1] == q[i]);
                    assert(has_edge(edges, q[i - 1], q[i]));
                }
            }
        }
        assert(p.last() == q.last());
        assert(reaches(edges, u, v));
    }
}

proof fn lemma_has_edge_push(edges: Seq<(u32, u32)>, e: (u32, u32), a: int, b: int)
    ensures
        has_edge(edges.push(e), a, b) <==> (has_edge(edges, a, b) || (e.0 == a && e.1 == b)),
{
    let s = edges.push(e);
    if has_edge(s, a, b) {
        let j = choose|j: int| 0 <= j < s.len() && s[j].0 == a && s[j].1 == b;
        if j < edges.len() {
            assert(edges[j] == s[j]);
        }
    }
    if has_edge(edges, a, b) {
        let j = choose|j: int| 0 <= j < edges.len() && edges[j].0 == a && edges[j].1 == b;
        assert(s[j] == edges[j]);
    }
    if e.0 == a && e.1 == b {
        assert(s[edges.len() as int] == e);
    }
}

/// The rows of the successor relation: row `u` holds `v` for each edge `(u, v)`.
fn successor_rows(n: usize, edges: &[(u32, u32)]) -> (r: Vec<BitSet>)
    requires
        edges_in_range(n as nat, edges@),
    ensures
        r@.len() == n,
        forall|u: int, v: usize| 0 <= u < n ==> (#[trigger] r@[u]@.contains(v) <==> has_edge(edges@, u, v as int)),
{
    let mut rows: Vec<BitSet> = Vec::new();
    let mut i: usize = 0;
    while i < n
        invariant
            i <= n,
            rows@.len() == i,
            forall|u: int| 0 <= u < i ==> #[trigger] rows@[u]@ == Set::<usize>::empty(),
        decreases n - i,
    {
        rows.push(BitSet::with_capacity(n));
        i = i + 1;
    }
    let mut k: usize = 0;
    while k < edges.len()
        invariant
            edges_in_range(n as nat, edges@),
            k <= edges@.len(),
            rows@.len() == n,
            forall|u: int, v: usize|
                0 <= u < n ==> (#[trigger] rows@[u]@.contains(v) <==> has_edge(edges@.take(k as int), u, v as int)),
        decreases edges@.len() - k,
    {
        let (u, v) = edges[k];
        assert(edges@[k as int] == (u, v));
        let ghost old_rows = rows@;
        rows[u as usize].insert(v as usize);
        proof {
            let e = edges@.take(k + 1);
            assert(e == edges@.take(k as int).push((u, v)));
            assert forall|a: int, b: usize| 0 <= a < n implies (#[trigger] rows@[a]@.contains(b) <==> has_edge(e, a, b as int)) by {
                lemma_has_edge_push(edges@.take(k as int), (u, v), a, b as int);
                assert(old_rows[a]@.contains(b) <==> has_edge(edges@.take(k as int), a, b as int));
                if a != u as int {
                    assert(rows@[a] == old_rows[a]);
                } else {
                    assert(rows@[a]@ == old_rows[a]@.insert(v as usize));
                }
            }
        }
        k = k + 1;
    }
    assert(edges@.take(edges@.len() as int) == edges@);
    rows
}

/// The transitive closure of an acyclic graph, by dynamic programming in
/// reverse topological order: row `u` of the result holds every node
/// reachable from `u`.
pub(crate) fn reachability(n: usize, edges: &[(u32, u32)], topo: &[usize]) -> (r: Vec<BitSet>)
    requires
        edges_in_range(n as nat, edges@),
        is_topological(n as nat, edges@, topo@),
    ensures
        r@.len() == n,
        forall|u: int, v: usize| 0 <= u < n ==> (#[trigger] r@[u]@.contains(v) <==> reaches(edges@, u, v as int)),
{
    let ghost es = edges@;
    let mut reach: Vec<BitSet> = Vec::new();
    let mut i: usize = 0;
    while i < n
        invariant
            i <= n,
            reach@.len() == i,
        decreases n - i,
    {
        reach.push(BitSet::with_capacity(n));
        i = i + 1;
    }
    let direct = successor_rows(n, edges);
    proof {
        lemma_perm_covers(topo@, n as nat);
    }
    let mut t: usize = n;
    while t > 0
        invariant
            es == edges@,
            edges_in_range(n as nat, es),
            is_topological(n as nat, es, topo@),
            forall|u: usize| u < n ==> topo@.contains(u),
            t <= n,
            reach@.len() == n,
            direct@.len() == n,
            forall|u: int, v: usize| 0 <= u < n ==> (#[trigger] direct@[u]@.contains(v) <==> has_edge(es, u, v as int)),
            forall|i: int, v: usize|
                t <= i < n ==> (#[trigger] reach@[topo@[i] as int]@.contains(v) <==> reaches(es, topo@[i] as int, v as int)),
        decreases t,
    {
        t = t - 1;
        let u = topo[t];
        let ghost r0 = reach@;
        reach.set(u, direct[u].clone());
        let succs = direct[u].to_vec();
        let mut j: usize = 0;
        while j < succs.len()
            invariant
                es == edges@,
                edges_in_range(n as nat, es),
                is_topological(n as nat, es, topo@),
                forall|u: usize| u < n ==> topo@.contains(u),
                t < n,
                u == topo@[t as int],
                u < n,
                reach@.len() == n,
                succs@.to_set() == direct@[u as int]@,
                forall|u: int, v: usize| 0 <= u < n ==> (#[trigger] direct@[u]@.contains(v) <==> has_edge(es, u, v as int)),
                j <= succs@.len(),
                forall|i: int, v: usize|
                    t < i < n ==> (#[trigger] reach@[topo@[i] as int]@.contains(v) <==> reaches(es, topo@[i] as int, v as int)),
                forall|v: usize|
                    #[trigger] reach@[u as int]@.contains(v) <==> (has_edge(es, u as int, v as int) || exists|x: int|
                        0 <= x < j && reaches(es, succs@[x] as int, v as int)),
            decreases succs@.len() - j,
        {
            let w = succs[j];
            proof {
                assert(succs@.to_set().contains(w));
                assert(has_edge(es, u as int, w as int));
                let k = choose|k: int| 0 <= k < es.len() && es[k].0 == u as int && es[k].1 == w as int;
                assert(topo@.contains(w));
                let b = choose|b: int| 0 <= b < topo@.len() && topo@[b] == w;
                assert(topo@[t as int] == es[k].0 && topo@[b] == es[k].1);
                assert(t < b);
                assert(reach@[topo@[b] as int] == reach@[w as int]);
                assert forall|v: usize| #[trigger] reach@[w as int]@.contains(v) <==> reaches(es, w as int, v as int) by {
                    assert(reach@[topo@[b] as int]@.contains(v) <==> reaches(es, topo@[b] as int, v as int));
                }
            }
            let reach_w = reach[w].clone();
            let ghost r1 = reach@;
            reach[u].union_with(&reach_w);
            proof {
                assert forall|i: int, v: usize| t < i < n implies (#[trigger] reach@[topo@[i] as int]@.contains(v)
                    <==> reaches(es, topo@[i] as int, v as int)) by {
                    assert(topo@[i] != topo@[t as int]);
                    assert(reach@[topo@[i] as int] == r1[topo@[i] as int]);
                }
                assert forall|v: usize|
                    #[trigger] reach@[u as int]@.contains(v) <==> (has_edge(es, u as int, v as int) || exists|x: int|
                        0 <= x < j + 1 && reaches(es, succs@[x] as int, v as int)) by {
                    assert(reach_w@.contains(v) <==> reaches(es, succs@[j as int] as int, v as int));
                    assert(reach@[u as int]@.contains(v) <==> (r1[u as int]@.contains(v) || reach_w@.contains(v)));
                    if exists|x: int| 0 <= x < j + 1 && reaches(es, succs@[x] as int, v as int) {
                        let x = choose|x: int| 0 <= x < j + 1 && reaches(es, succs@[x] as int, v as int);
                        if x < j {
                            assert(r1[u as int]@.contains(v));
                        }
                    }
                }
            }
            j = j + 1;
        }
        proof {
            assert forall|v: usize| #[trigger] reach@[u as int]@.contains(v) <==> reaches(es, u as int, v as int) by {
                lemma_reach_step(es, u as int, v as int);
                if exists|w: int| has_edge(es, u as int, w) && #[trigger] reaches(es, w, v as int) {
                    let w = choose|w: int| has_edge(es, u as int, w) && #[trigger] reaches(es, w, v as int);
                    let k = choose|k: int| 0 <= k < es.len() && es[k].0 == u as int && es[k].1 == w;
                    assert(direct@[u as int]@.contains(w as usize));
                    assert(succs@.to_set().contains(w as usize));
                    let x = choose|x: int| 0 <= x < succs@.len() && succs@[x] == w as usize;
                    assert(reaches(es, succs@[x] as int, v as int));
                }
                if exists|x: int| 0 <= x < succs@.len() && reaches(es, succs@[x] as int, v as int) {
                    let x = choose|x: int| 0 <= x < succs@.len() && reaches(es, succs@[x] as int, v as int);
                    assert(succs@.to_set().contains(succs@[x]));
                    assert(has_edge(es, u as int, succs@[x] as int));
                }
            }
            assert forall|i: int, v: usize| t <= i < n implies (#[trigger] reach@[topo@[i] as int]@.contains(v)
                <==> reaches(es, topo@[i] as int, v as int)) by {
                if i > t {
                    assert(topo@[i] != topo@[t as int]);
                }
            }
        }
    }
    proof {
        assert forall|u: int, v: usize| 0 <= u < n implies (#[trigger] reach@[u]@.contains(v) <==> reaches(es, u, v as int)) by {
            assert(topo@.contains(u as usize));
            let i = choose|i: int| 0 <= i < topo@.len() && topo@[i] == u as usize;
            assert(reach@[topo@[i] as int]@.contains(v) <==> reaches(es, topo@[i] as int, v as int));
        }
    }
    reach
}


// ---- pair lists -----------------------------------------------------------------

/// Pair `p` comes strictly before pair `q`, first component first.
pub open spec fn pair_lt(p: (u32, u32), q: (u32, u32)) -> bool {
    p.0 < q.0 || (p.0 == q.0 && p.1 < q.1)
}

/// The pairs are strictly increasing, first component first.
pub open spec fn pairs_sorted(s: Seq<(u32, u32)>) -> bool {
    forall|x: int, y: int| 0 <= x < y < s.len() ==> pair_lt(#[trigger] s[x], #[trigger] s[y])
}

/// Appends `(u, v)` for each `v` of `row`, in ascending order.
fn append_row(out: &mut Vec<(u32, u32)>, u: usize, row: &BitSet)
    requires
        forall|v: usize| #[trigger] row@.contains(v) ==> u <= u32::MAX && v <= u32::MAX,
        pairs_sorted(old(out)@),
        old(out)@.len() > 0 ==> old(out)@.last().0 < u,
    ensures
        pairs_sorted(final(out)@),
        final(out)@.len() > 0 ==> final(out)@.last().0 <= u,
        forall|a: u32, b: u32|
            #[trigger] final(out)@.contains((a, b)) <==> (old(out)@.contains((a, b)) || (a == u
                && row@.contains(b as usize))),
{
    let vs = row.to_vec();
    let ghost out0 = out@;
    let mut j: usize = 0;
    while j < vs.len()
        invariant
            strictly_increasing_usize(vs@),
            vs@.to_set() == row@,
            forall|v: usize| #[trigger] row@.contains(v) ==> u <= u32::MAX && v <= u32::MAX,
            j <= vs@.len(),
            pairs_sorted(out@),
            j == 0 ==> out@ == out0,
            out0.len() > 0 ==> out0.last().0 < u,
            j > 0 ==> out@.len() > 0 && out@.last() == (u as u32, vs@[j - 1] as u32),
            forall|a: u32, b: u32|
                #[trigger] out@.contains((a, b)) <==> (out0.contains((a, b)) || (a == u && exists|x: int|
                    0 <= x < j && vs@[x] == b as usize)),
        decreases vs@.len() - j,
    {
        let v = vs[j];
        assert(vs@.to_set().contains(v));
        let ghost before = out@;
        out.push((u as u32, v as u32));
        proof {
            assert forall|x: int, y: int| 0 <= x < y < out@.len() implies pair_lt(
                #[trigger] out@[x],
                #[trigger] out@[y],
            ) by {
                if y == before.len() && x < before.len() {
                    assert(out@[x] == before[x]);
                    if x < before.len() - 1 {
                        assert(pair_lt(before[x], before[before.len() - 1]));
                    }
                    if j > 0 {
                        assert(vs@[j - 1] < vs@[j as int]);
                    }
                }
            }
            assert forall|a: u32, b: u32|
                #[trigger] out@.contains((a, b)) <==> (out0.contains((a, b)) || (a == u && exists|x: int|
                    0 <= x < j + 1 && vs@[x] == b as usize)) by {
                if out@.contains((a, b)) {
                    let x = choose|x: int| 0 <= x < out@.len() && out@[x] == (a, b);
                    if x < before.len() {
                        assert(before[x] == (a, b));
                        assert(before.contains((a, b)));
                    } else {
                        assert(vs@[j as int] == b as usize);
                    }
                }
                if before.contains((a, b)) {
                    let x = choose|x: int| 0 <= x < before.len() && before[x] == (a, b);
                    assert(out@[x] == (a, b));
                }
                if a == u && exists|x: int| 0 <= x < j + 1 && vs@[x] == b as usize {
                    let x = choose|x: int| 0 <= x < j + 1 && vs@[x] == b as usize;
                    if x == j {
                        assert(out@[before.len() as int] == (a, b));
                    } else {
                        assert(before.contains((a, b)));
                        let y = choose|y: int| 0 <= y < before.len() && before[y] == (a, b);
                        assert(out@[y] == (a, b));
                    }
                }
            }
        }
        j = j + 1;
    }
    proof {
        assert forall|a: u32, b: u32|
            #[trigger] out@.contains((a, b)) <==> (out0.contains((a, b)) || (a == u && row@.contains(
                b as usize,
            ))) by {
            if a == u && row@.contains(b as usize) {
                assert(vs@.to_set().contains(b as usize));
            }
        }
        if j > 0 {
        } else {
            assert(out@ == out0);
        }
    }
}

/// The values ascend strictly.
pub open spec fn strictly_increasing_usize(s: Seq<usize>) -> bool {
    forall|i: int, j: int| 0 <= i < j < s.len() ==> s[i] < s[j]
}

/// Flattens a reachability matrix into the pair list callers iterate over.
fn pairs_of(reach: &[BitSet]) -> (r: Vec<(u32, u32)>)
    requires
        forall|u: int, v: usize|
            0 <= u < reach@.len() && #[trigger] reach@[u]@.contains(v) ==> u <= u32::MAX && v
                <= u32::MAX,
    ensures
        pairs_sorted(r@),
        forall|a: u32, b: u32|
            #[trigger] r@.contains((a, b)) <==> (a < reach@.len() && reach@[a as int]@.contains(
                b as usize,
            )),
{
    let mut result: Vec<(u32, u32)> = Vec::new();
    let mut u: usize = 0;
    while u < reach.len()
        invariant
            forall|u: int, v: usize|
                0 <= u < reach@.len() && #[trigger] reach@[u]@.contains(v) ==> u <= u32::MAX && v
                    <= u32::MAX,
            u <= reach@.len(),
            pairs_sorted(result@),
            result@.len() > 0 ==> result@.last().0 < u,
            forall|a: u32, b: u32|
                #[trigger] result@.contains((a, b)) <==> (a < u && reach@[a as int]@.contains(
                    b as usize,
                )),
        decreases reach@.len() - u,
    {
        let ghost r0 = result@;
        append_row(&mut result, u, &reach[u]);
        proof {
            assert forall|a: u32, b: u32|
                #[trigger] result@.contains((a, b)) <==> (a < u + 1 && reach@[a as int]@.contains(
                    b as usize,
                )) by {
                assert(r0.contains((a, b)) <==> (a < u && reach@[a as int]@.contains(b as usize)));
            }
        }
        u = u + 1;
    }
    result
}

/// The covering pairs of a relation: edge `(u, v)` unless `v` is also reached
/// through another successor `w` of `u`.
fn transitive_reduction(n: usize, edges: &[(u32, u32)], reach: &[BitSet]) -> (r: Vec<(u32, u32)>)
    requires
        edges_in_range(n as nat, edges@),
        reach@.len() == n,
    ensures
        pairs_sorted(r@),
        forall|a: u32, b: u32|
            #[trigger] r@.contains((a, b)) <==> (has_edge(edges@, a as int, b as int) && !exists|w: int|
                has_edge(edges@, a as int, w) && 0 <= w < n && #[trigger] reach@[w]@.contains(b as usize)),
{
    let succ = successor_rows(n, edges);
    let mut result: Vec<(u32, u32)> = Vec::new();
    let mut u: usize = 0;
    while u < n
        invariant
            edges_in_range(n as nat, edges@),
            reach@.len() == n,
            succ@.len() == n,
            forall|u: int, v: usize| 0 <= u < n ==> (#[trigger] succ@[u]@.contains(v) <==> has_edge(edges@, u, v as int)),
            u <= n,
            pairs_sorted(result@),
            result@.len() > 0 ==> result@.last().0 < u,
            forall|a: u32, b: u32|
                #[trigger] result@.contains((a, b)) <==> (a < u && has_edge(edges@, a as int, b as int)
                    && !exists|w: int|
                    has_edge(edges@, a as int, w) && 0 <= w < n && #[trigger] reach@[w]@.contains(b as usize)),
        decreases n - u,
    {
        let mut indirect = BitSet::with_capacity(n);
        let ws = succ[u].to_vec();
        let mut i: usize = 0;
        while i < ws.len()
            invariant
                reach@.len() == n,
                u < n,
                ws@.to_set() == succ@[u as int]@,
                forall|u: int, v: usize| 0 <= u < n ==> (#[trigger] succ@[u]@.contains(v) <==> has_edge(edges@, u, v as int)),
                edges_in_range(n as nat, edges@),
                i <= ws@.len(),
                forall|v: usize|
                    #[trigger] indirect@.contains(v) <==> exists|x: int|
                        0 <= x < i && reach@[ws@[x] as int]@.contains(v),
            decreases ws@.len() - i,
        {
            let w = ws[i];
            proof {
                assert(ws@.to_set().contains(w));
                let k = choose|k: int| 0 <= k < edges@.len() && edges@[k].0 == u as int && edges@[k].1 == w as int;
                assert(edges@[k].1 < n);
            }
            let ghost ind0 = indirect@;
            indirect.union_with(&reach[w]);
            proof {
                assert forall|v: usize|
                    #[trigger] indirect@.contains(v) <==> exists|x: int|
                        0 <= x < i + 1 && reach@[ws@[x] as int]@.contains(v) by {
                    if exists|x: int| 0 <= x < i + 1 && reach@[ws@[x] as int]@.contains(v) {
                        let x = choose|x: int| 0 <= x < i + 1 && reach@[ws@[x] as int]@.contains(v);
                        if x < i {
                            assert(ind0.contains(v));
                        }
                    }
                }
            }
            i = i + 1;
        }
        let mut covering = succ[u].clone();
        covering.difference_with(&indirect);
        proof {
            assert forall|v: usize| #[trigger] covering@.contains(v) implies u <= u32::MAX && v <= u32::MAX by {
                assert(has_edge(edges@, u as int, v as int));
                let k = choose|k: int| 0 <= k < edges@.len() && edges@[k].0 == u as int && edges@[k].1 == v as int;
            }
        }
        let ghost r0 = result@;
        append_row(&mut result, u, &covering);
        proof {
            assert forall|a: u32, b: u32|
                #[trigger] result@.contains((a, b)) <==> (a < u + 1 && has_edge(edges@, a as int, b as int)
                    && !exists|w: int|
                    has_edge(edges@, a as int, w) && 0 <= w < n && #[trigger] reach@[w]@.contains(b as usize)) by {
                assert(r0.contains((a, b)) <==> (a < u && has_edge(edges@, a as int, b as int)
                    && !exists|w: int|
                    has_edge(edges@, a as int, w) && 0 <= w < n && #[trigger] reach@[w]@.contains(b as usize)));
                if a == u {
                    if covering@.contains(b as usize) {
                        assert(succ@[u as int]@.contains(b as usize));
                        assert(!indirect@.contains(b as usize));
                        if exists|w: int|
                            has_edge(edges@, a as int, w) && 0 <= w < n && #[trigger] reach@[w]@.contains(b as usize) {
                            let w = choose|w: int|
                                has_edge(edges@, a as int, w) && 0 <= w < n && #[trigger] reach@[w]@.contains(b as usize);
                            assert(succ@[u as int]@.contains(w as usize));
                            assert(ws@.to_set().contains(w as usize));
                            let x = choose|x: int| 0 <= x < ws@.len() && ws@[x] == w as usize;
                            assert(reach@[ws@[x] as int]@.contains(b as usize));
                        }
                    }
                    if has_edge(edges@, a as int, b as int) && !exists|w: int|
                        has_edge(edges@, a as int, w) && 0 <= w < n && #[trigger] reach@[w]@.contains(b as usize) {
                        assert(succ@[u as int]@.contains(b as usize));
                        if indirect@.contains(b as usize) {
                            let x = choose|x: int| 0 <= x < ws@.len() && reach@[ws@[x] as int]@.contains(b as usize);
                            assert(ws@.to_set().contains(ws@[x]));
                            assert(has_edge(edges@, a as int, ws@[x] as int));
                        }
                    }
                }
            }
        }
        u = u + 1;
    }
    proof {
        assert forall|a: u32, b: u32|
            #[trigger] result@.contains((a, b)) <==> (has_edge(edges@, a as int, b as int) && !exists|w: int|
                has_edge(edges@, a as int, w) && 0 <= w < n && #[trigger] reach@[w]@.contains(b as usize)) by {
            if has_edge(edges@, a as int, b as int) {
                let k = choose|k: int| 0 <= k < edges@.len() && edges@[k].0 == a as int && edges@[k].1 == b as int;
                assert(edges@[k].0 < n);
            }
        }
    }
    result
}


// ---- posets ---------------------------------------------------------------------

/// Walks compose.
pub proof fn lemma_reaches_trans(edges: Seq<(u32, u32)>, u: int, v: int, w: int)
    requires
        reaches(edges, u, v),
        reaches(edges, v, w),
    ensures
        reaches(edges, u, w),
{
    let p = choose|p: Seq<int>| #[trigger] is_walk(edges, p) && p[0] == u && p.last() == v;
    let q = choose|q: Seq<int>| #[trigger] is_walk(edges, q) && q[0] == v && q.last() == w;
    let r = p + q.drop_first();
    assert(is_walk(edges, r)) by {
        assert forall|i: int| 0 <= i < r.len() - 1 implies has_edge(edges, #[trigger] r[i], r[i + 1]) by {
            if i < p.len() - 1 {
                assert(r[i] == p[i] && r[i + 1] == p[i + 1]);
            } else {
                let j = i - (p.len() - 1);
                assert(r[i] == q[j]) by {
                    if i == p.len() - 1 {
                        assert(r[i] == p.last());
                    } else {
                        assert(r[i] == q.drop_first()[i - p.len()]);
                    }
                }
                assert(r[i + 1] == q.drop_first()[i + 1 - p.len()]);
                assert(has_edge(edges, q[j], q[j + 1]));
            }
        }
    }
    assert(r.last() == q.last());
    assert(reaches(edges, u, w));
}

/// A walk starts with an edge out of its first node and ends with an edge
/// into its last.
proof fn lemma_reaches_ends(edges: Seq<(u32, u32)>, u: int, v: int)
    requires
        reaches(edges, u, v),
    ensures
        exists|k: int| 0 <= k < edges.len() && edges[k].0 == u,
        exists|k: int| 0 <= k < edges.len() && edges[k].1 == v,
{
    let p = choose|p: Seq<int>| #[trigger] is_walk(edges, p) && p[0] == u && p.last() == v;
    assert(has_edge(edges, p[0], p[1]));
    assert(has_edge(edges, p[p.len() - 2], p[p.len() - 1]));
}

/// The relation holds `(a, c)` whenever it holds `(a, b)` and `(b, c)`.
pub open spec fn is_transitive(edges: Seq<(u32, u32)>) -> bool {
    forall|a: int, b: int, c: int|
        #[trigger] has_edge(edges, a, b) && #[trigger] has_edge(edges, b, c) ==> has_edge(edges, a, c)
}

/// `(a, b)` is a pair of the relation with nothing of it in between.
pub open spec fn is_cover(edges: Seq<(u32, u32)>, a: int, b: int) -> bool {
    has_edge(edges, a, b) && !exists|w: int| #[trigger] has_edge(edges, a, w) && has_edge(edges, w, b)
}

/// In a transitive acyclic relation, the covering pairs reach exactly the
/// pairs of the relation.
proof fn lemma_cover_closure(
    n: nat,
    edges: Seq<(u32, u32)>,
    cover: Seq<(u32, u32)>,
    o: Seq<usize>,
    u: int,
    v: int,
)
    requires
        edges_in_range(n, edges),
        is_transitive(edges),
        is_topological(n, edges, o),
        forall|a: int, b: int| #[trigger] has_edge(cover, a, b) <==> is_cover(edges, a, b),
    ensures
        reaches(cover, u, v) <==> has_edge(edges, u, v),
    decreases n,
{
    lemma_perm_covers(o, n);
    if reaches(cover, u, v) {
        lemma_walk_in_relation(edges, cover, u, v);
    }
    if has_edge(edges, u, v) {
        let k = choose|k: int| 0 <= k < edges.len() && edges[k].0 == u && edges[k].1 == v;
        assert(edges[k].0 < n && edges[k].1 < n);
        assert(o.contains(u as usize));
        assert(o.contains(v as usize));
        lemma_relation_reached(n, edges, cover, o, u, v, n as int);
    }
}

proof fn lemma_walk_in_relation(edges: Seq<(u32, u32)>, cover: Seq<(u32, u32)>, u: int, v: int)
    requires
        is_transitive(edges),
        forall|a: int, b: int| #[trigger] has_edge(cover, a, b) <==> is_cover(edges, a, b),
        reaches(cover, u, v),
    ensures
        has_edge(edges, u, v),
{
    let p = choose|p: Seq<int>| #[trigger] is_walk(cover, p) && p[0] == u && p.last() == v;
    lemma_walk_prefix(edges, cover, p, p.len() - 1);
}

proof fn lemma_walk_prefix(edges: Seq<(u32, u32)>, cover: Seq<(u32, u32)>, p: Seq<int>, i: int)
    requires
        is_transitive(edges),
        forall|a: int, b: int| #[trigger] has_edge(cover, a, b) <==> is_cover(edges, a, b),
        is_walk(cover, p),
        1 <= i < p.len(),
    ensures
        has_edge(edges, p[0], p[i]),
    decreases i,
{
    assert(has_edge(cover, p[i - 1], p[i]));
    assert(is_cover(edges, p[i - 1], p[i]));
    if i > 1 {
        lemma_walk_prefix(edges, cover, p, i - 1);
    }
}

/// The position of node `u` in the order `o`.
spec fn pos(o: Seq<usize>, u: int) -> int {
    choose|i: int| 0 <= i < o.len() && o[i] == u as usize
}

proof fn lemma_relation_reached(
    n: nat,
    edges: Seq<(u32, u32)>,
    cover: Seq<(u32, u32)>,
    o: Seq<usize>,
    u: int,
    v: int,
    bound: int,
)
    requires
        edges_in_range(n, edges),
        is_transitive(edges),
        is_topological(n, edges, o),
        forall|x: usize| x < n ==> o.contains(x),
        forall|a: int, b: int| #[trigger] has_edge(cover, a, b) <==> is_cover(edges, a, b),
        has_edge(edges, u, v),
        0 <= u < n,
        0 <= v < n,
        pos(o, v) - pos(o, u) <= bound,
    ensures
        reaches(cover, u, v),
    decreases bound,
{
    assert(o.contains(u as usize));
    assert(o.contains(v as usize));
    let pu = pos(o, u);
    let pv = pos(o, v);
    let k = choose|k: int| 0 <= k < edges.len() && edges[k].0 == u && edges[k].1 == v;
    assert(o[pu] == edges[k].0 && o[pv] == edges[k].1);
    assert(pu < pv);
    if is_cover(edges, u, v) {
        assert(has_edge(cover, u, v));
        let p = seq![u, v];
        assert(is_walk(cover, p)) by {
            assert forall|i: int| 0 <= i < p.len() - 1 implies has_edge(cover, #[trigger] p[i], p[i + 1]) by {
                assert(i == 0);
            }
        }
    } else {
        let w = choose|w: int| #[trigger] has_edge(edges, u, w) && has_edge(edges, w, v);
        let k1 = choose|k1: int| 0 <= k1 < edges.len() && edges[k1].0 == u && edges[k1].1 == w;
        let k2 = choose|k2: int| 0 <= k2 < edges.len() && edges[k2].0 == w && edges[k2].1 == v;
        assert(0 <= w < n);
        assert(o.contains(w as usize));
        let pw = pos(o, w);
        assert(o[pu] == edges[k1].0 && o[pw] == edges[k1].1);
        assert(o[pw] == edges[k2].0 && o[pv] == edges[k2].1);
        assert(pu < pw < pv);
        lemma_relation_reached(n, edges, cover, o, u, w, bound - 1);
        lemma_relation_reached(n, edges, cover, o, w, v, bound - 1);
        lemma_reaches_trans(cover, u, w, v);
    }
}

/// A partially ordered set (poset).
///
/// Stores both the covering relation (order diagram edges) and the full
/// strict order, as a pair list and as one row of nodes above per node.
#[derive(Debug)]
pub struct Poset<T> {
    /// The nodes of the poset, indexed by position (0-based).
    pub nodes: Vec<T>,
    /// The covering relation (order diagram): (u, v) means u ≺ v.
    pub covering_edges: Vec<(u32, u32)>,
    /// All comparable pairs (u, v) with u < v (strict, reflexivity excluded).
    pub transitive_edges: Vec<(u32, u32)>,
    /// The same relation as rows: row `u` holds `v` exactly if `u < v`.
    pub reach: Vec<BitSet>,
}

impl<T> Poset<T> {
    /// `a ≤ b` in this poset.
    pub open spec fn leq(&self, a: int, b: int) -> bool {
        a == b || (0 <= a < self.reach@.len() && self.reach@[a]@.contains(b as usize))
    }

    /// The covering relation is an acyclic graph on the nodes, `reach` is
    /// its transitive closure, and `transitive_edges` lists `reach`.
    pub open spec fn wf(&self) -> bool {
        let n = self.nodes@.len();
        &&& self.reach@.len() == n
        &&& edges_in_range(n, self.covering_edges@)
        &&& acyclic(n, self.covering_edges@)
        &&& forall|u: int, v: usize|
            0 <= u < n ==> (#[trigger] self.reach@[u]@.contains(v) <==> reaches(
                self.covering_edges@,
                u,
                v as int,
            ))
        &&& forall|a: u32, b: u32|
            #[trigger] self.transitive_edges@.contains((a, b)) <==> (a < n
                && self.reach@[a as int]@.contains(b as usize))
    }

    /// Construct a poset from its covering relation (order diagram edges).
    ///
    /// Returns `Err(PosetError::Cycle)` if the edge set is not acyclic;
    /// otherwise computes the transitive closure.
    pub fn from_covering_relation(nodes: Vec<T>, edges: Vec<(u32, u32)>) -> (r: Result<Self, PosetError>)
        requires
            edges_in_range(nodes@.len(), edges@),
        ensures
            match r {
                Ok(p) => {
                    &&& p.wf()
                    &&& p.nodes == nodes
                    &&& p.covering_edges == edges
                    &&& pairs_sorted(p.transitive_edges@)
                },
                Err(e) => e == PosetError::Cycle && !acyclic(nodes@.len(), edges@),
            },
    {
        let n = nodes.len();
        let topo = match kahn_topo_sort(n, edges.as_slice()) {
            Some(t) => t,
            None => return Err(PosetError::Cycle),
        };
        let reach = reachability(n, edges.as_slice(), topo.as_slice());
        proof {
            assert forall|u: int, v: usize|
                0 <= u < reach@.len() && #[trigger] reach@[u]@.contains(v) implies u <= u32::MAX && v
                    <= u32::MAX by {
                lemma_reaches_ends(edges@, u, v as int);
            }
        }
        let transitive_edges = pairs_of(reach.as_slice());
        let p = Poset { nodes, covering_edges: edges, transitive_edges, reach };
        assert(acyclic(p.nodes@.len(), p.covering_edges@));
        Ok(p)
    }

    /// Construct a poset from its full strict order.
    ///
    /// Returns `Err(PosetError::Cycle)` if the relation is not acyclic;
    /// otherwise computes the covering relation. The relation is taken as
    /// given: the result is a well-formed poset when it is transitive.
    pub fn from_transitive_relation(nodes: Vec<T>, edges: Vec<(u32, u32)>) -> (r: Result<Self, PosetError>)
        requires
            edges_in_range(nodes@.len(), edges@),
        ensures
            match r {
                Ok(p) => {
                    &&& p.nodes == nodes
                    &&& p.transitive_edges == edges
                    &&& p.reach@.len() == nodes@.len()
                    &&& forall|u: int, v: usize|
                        0 <= u < nodes@.len() ==> (#[trigger] p.reach@[u]@.contains(v) <==> has_edge(
                            edges@,
                            u,
                            v as int,
                        ))
                    &&& forall|a: u32, b: u32|
                        #[trigger] p.covering_edges@.contains((a, b)) <==> is_cover(
                            edges@,
                            a as int,
                            b as int,
                        )
                    &&& pairs_sorted(p.covering_edges@)
                    &&& is_transitive(edges@) ==> p.wf()
                },
                Err(e) => e == PosetError::Cycle && !acyclic(nodes@.len(), edges@) && cycle_core(
                    nodes@.len(),
                    edges@,
                ),
            },
    {
        let n = nodes.len();
        let topo = match kahn_topo_sort(n, edges.as_slice()) {
            Some(t) => t,
            None => return Err(PosetError::Cycle),
        };
        let reach = successor_rows(n, edges.as_slice());
        let covering_edges = transitive_reduction(n, edges.as_slice(), reach.as_slice());
        proof {
            let es = edges@;
            assert forall|a: u32, b: u32| #[trigger] covering_edges@.contains((a, b)) <==> is_cover(
                es,
                a as int,
                b as int,
            ) by {
                if exists|w: int| #[trigger] has_edge(es, a as int, w) && has_edge(es, w, b as int) {
                    let w = choose|w: int| #[trigger] has_edge(es, a as int, w) && has_edge(es, w, b as int);
                    let k = choose|k: int| 0 <= k < es.len() && es[k].0 == a as int && es[k].1 == w;
                    assert(0 <= w < n);
                    assert(reach@[w]@.contains(b as usize));
                }
            }
        }
        let p = Poset { nodes, covering_edges, transitive_edges: edges, reach };
        proof {
            let es = p.transitive_edges@;
            let cov = p.covering_edges@;
            if is_transitive(es) {
                assert forall|a: int, b: int| #[trigger] has_edge(cov, a, b) <==> is_cover(es, a, b) by {
                    if has_edge(cov, a, b) {
                        let k = choose|k: int| 0 <= k < cov.len() && cov[k].0 == a && cov[k].1 == b;
                        assert(cov.contains(cov[k]));
                    }
                    if is_cover(es, a, b) {
                        let k = choose|k: int| 0 <= k < es.len() && es[k].0 == a && es[k].1 == b;
                        let pr = (es[k].0, es[k].1);
                        assert(cov.contains(pr));
                        let j = choose|j: int| 0 <= j < cov.len() && cov[j] == pr;
                    }
                }
                assert(edges_in_range(n as nat, cov)) by {
                    assert forall|k: int| 0 <= k < cov.len() implies #[trigger] cov[k].0 < n && cov[k].1 < n by {
                        assert(cov.contains(cov[k]));
                        let e = choose|j: int| 0 <= j < es.len() && es[j].0 == cov[k].0 && es[j].1 == cov[k].1;
                    }
                }
                assert(is_topological(n as nat, cov, topo@)) by {
                    assert forall|k: int, i: int, j: int|
                        #![trigger topo@[i], topo@[j], cov[k]]
                        0 <= k < cov.len() && 0 <= i < n && 0 <= j < n && topo@[i] == cov[k].0
                            && topo@[j] == cov[k].1 implies i < j by {
                        assert(cov.contains(cov[k]));
                        let e = choose|e: int| 0 <= e < es.len() && es[e].0 == cov[k].0 && es[e].1 == cov[k].1;
                        assert(topo@[i] == es[e].0 && topo@[j] == es[e].1);
                    }
                }
                assert forall|u: int, v: usize| 0 <= u < n implies (#[trigger] p.reach@[u]@.contains(v)
                    <==> reaches(cov, u, v as int)) by {
                    lemma_cover_closure(n as nat, es, cov, topo@, u, v as int);
                }
                assert forall|a: u32, b: u32| #[trigger] es.contains((a, b)) <==> (a < n
                    && p.reach@[a as int]@.contains(b as usize)) by {
                    if es.contains((a, b)) {
                        let k = choose|k: int| 0 <= k < es.len() && es[k] == (a, b);
                        assert(has_edge(es, a as int, b as int));
                    }
                    if a < n && p.reach@[a as int]@.contains(b as usize) {
                        let k = choose|k: int| 0 <= k < es.len() && es[k].0 == a as int && es[k].1 == b as int;
                        assert(es[k] == (a, b));
                    }
                }
            }
        }
        Ok(p)
    }

    /// Returns `true` if `a ≤ b` in this poset (a is below b or equal).
    pub fn is_leq(&self, a: u32, b: u32) -> (r: bool)
        ensures
            r == self.leq(a as int, b as int),
    {
        if a == b {
            return true;
        }
        let i = a as usize;
        if i < self.reach.len() {
            self.reach[i].contains(b as usize)
        } else {
            false
        }
    }

    /// Returns `true` if `a` is directly covered by `b` (a ≺ b).
    pub fn covers(&self, a: u32, b: u32) -> (r: bool)
        ensures
            r == self.covering_edges@.contains((a, b)),
    {
        let mut i: usize = 0;
        while i < self.covering_edges.len()
            invariant
                i <= self.covering_edges@.len(),
                forall|j: int| 0 <= j < i ==> self.covering_edges@[j] != (a, b),
            decreases self.covering_edges@.len() - i,
        {
            let e = self.covering_edges[i];
            if e.0 == a && e.1 == b {
                assert(self.covering_edges@[i as int] == (a, b));
                return true;
            }
            i = i + 1;
        }
        false
    }

    /// A linear extension of this poset: a topological order of the
    /// covering edges. `None` only if they contain a cycle, which a
    /// well-formed poset rules out.
    pub fn linear_extension(&self) -> (r: Option<Vec<usize>>)
        requires
            edges_in_range(self.nodes@.len(), self.covering_edges@),
        ensures
            match r {
                Some(o) => is_topological(self.nodes@.len(), self.covering_edges@, o@),
                None => !acyclic(self.nodes@.len(), self.covering_edges@),
            },
    {
        kahn_topo_sort(self.nodes.len(), self.covering_edges.as_slice())
    }

    /// A topological order of the nodes `0..n` under a raw edge set, each
    /// endpoint narrowed to `u32` as node ids are.
    pub fn linear_extension_static(n: usize, edges: &[(usize, usize)]) -> (r: Option<Vec<usize>>)
        requires
            forall|k: int| 0 <= k < edges@.len() ==> #[trigger] edges@[k].0 < n && edges@[k].1 < n,
        ensures
            match r {
                Some(o) => is_topological(n as nat, narrow_edges(edges@), o@),
                None => !acyclic(n as nat, narrow_edges(edges@)),
            },
    {
        let mut narrowed: Vec<(u32, u32)> = Vec::new();
        let mut k: usize = 0;
        while k < edges.len()
            invariant
                k <= edges@.len(),
                narrowed@ == narrow_edges(edges@).take(k as int),
                forall|k: int| 0 <= k < edges@.len() ==> #[trigger] edges@[k].0 < n && edges@[k].1 < n,
                edges_in_range(n as nat, narrowed@),
            decreases edges@.len() - k,
        {
            let (u, v) = edges[k];
            assert(edges@[k as int] == (u, v));
            let a = u as u32;
            let b = v as u32;
            assert(a as usize <= u) by (bit_vector)
                requires
                    a == u as u32,
            ;
            assert(b as usize <= v) by (bit_vector)
                requires
                    b == v as u32,
            ;
            narrowed.push((a, b));
            assert(narrow_edges(edges@).take(k + 1) == narrow_edges(edges@).take(k as int).push((a, b)));
            k = k + 1;
        }
        assert(narrow_edges(edges@).take(edges@.len() as int) == narrow_edges(edges@));
        kahn_topo_sort(n, narrowed.as_slice())
    }
}

/// The edges with both endpoints narrowed to `u32`.
pub open spec fn narrow_edges(edges: Seq<(usize, usize)>) -> Seq<(u32, u32)> {
    edges.map_values(|e: (usize, usize)| (e.0 as u32, e.1 as u32))
}

// ---- what holds of every poset ----------------------------------------------------

/// The order of a well-formed poset is reflexive, antisymmetric and
/// transitive on its nodes.
pub proof fn lemma_leq_partial_order<T>(p: &Poset<T>, a: u32, b: u32, c: u32)
    requires
        p.wf(),
        a < p.nodes@.len(),
        b < p.nodes@.len(),
        c < p.nodes@.len(),
    ensures
        p.leq(a as int, a as int),
        p.leq(a as int, b as int) && p.leq(b as int, a as int) ==> a == b,
        p.leq(a as int, b as int) && p.leq(b as int, c as int) ==> p.leq(a as int, c as int),
{
    let n = p.nodes@.len();
    let cov = p.covering_edges@;
    if p.leq(a as int, b as int) && p.leq(b as int, a as int) && a != b {
        assert(p.reach@[a as int]@.contains(b as usize));
        assert(p.reach@[b as int]@.contains(a as usize));
        lemma_reaches_trans(cov, a as int, b as int, a as int);
        lemma_acyclic_no_cycle(n, cov, a as int);
    }
    if p.leq(a as int, b as int) && p.leq(b as int, c as int) && a != b && b != c {
        assert(p.reach@[a as int]@.contains(b as usize));
        assert(p.reach@[b as int]@.contains(c as usize));
        lemma_reaches_trans(cov, a as int, b as int, c as int);
        assert(p.reach@[a as int]@.contains(c as usize));
    }
}

/// A covering pair of a well-formed poset is a strict order pair.
/// Both ends of a pair of the order are nodes.
pub proof fn lemma_transitive_edge_in_range<T>(p: &Poset<T>, a: u32, b: u32)
    requires
        p.wf(),
        p.transitive_edges@.contains((a, b)),
    ensures
        a < p.nodes@.len(),
        b < p.nodes@.len(),
{
    let n = p.nodes@.len();
    let cov = p.covering_edges@;
    assert(p.reach@[a as int]@.contains(b as usize));
    lemma_reaches_ends(cov, a as int, b as int);
    let k = choose|k: int| 0 <= k < cov.len() && cov[k].1 == b as int;
    assert(edges_in_range(n, cov));
    assert(0 <= k < cov.len());
    assert(cov[k].0 < n);
    assert(cov[k].1 < n);
}

pub proof fn lemma_covers_below<T>(p: &Poset<T>, a: u32, b: u32)
    requires
        p.wf(),
        p.covering_edges@.contains((a, b)),
    ensures
        p.leq(a as int, b as int),
        a != b,
{
    let n = p.nodes@.len();
    let cov = p.covering_edges@;
    let k = choose|k: int| 0 <= k < cov.len() && cov[k] == (a, b);
    assert(cov[k].0 < n);
    assert(has_edge(cov, a as int, b as int));
    lemma_reach_step(cov, a as int, b as int);
    assert(p.reach@[a as int]@.contains(b as usize));
    if a == b {
        lemma_acyclic_no_cycle(n, cov, a as int);
    }
}

} // verus!
