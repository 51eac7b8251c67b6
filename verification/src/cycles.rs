//! Depth-first search for a directed cycle, with white, gray and black
//! nodes: a gray node is on the current search path, and an edge back to
//! one closes a cycle.
use vstd::prelude::*;

verus! {

/// Every neighbour of every node is a node.
pub open spec fn adj_ok(adj: Seq<Vec<usize>>) -> bool {
    forall|x: int, t: int| 0 <= x < adj.len() && 0 <= t < adj[x]@.len() ==> #[trigger] adj[x]@[t] < adj.len()
}

/// There is an edge from `c[i]` to `c[i + 1]`.
pub open spec fn edge_at(adj: Seq<Vec<usize>>, c: Seq<usize>, i: int) -> bool {
    adj[c[i] as int]@.contains(c[i + 1])
}

/// `c` is a closed walk: each node leads to the next, and the last to the
/// first.
pub open spec fn is_cycle(adj: Seq<Vec<usize>>, c: Seq<usize>) -> bool {
    &&& c.len() >= 1
    &&& forall|i: int| 0 <= i < c.len() ==> #[trigger] c[i] < adj.len()
    &&& forall|i: int| 0 <= i < c.len() - 1 ==> #[trigger] edge_at(adj, c, i)
    &&& adj[c[c.len() - 1] as int]@.contains(c[0])
}

/// How many nodes are still white.
pub open spec fn whites(state: Seq<u8>) -> nat
    decreases state.len(),
{
    if state.len() == 0 {
        0
    } else {
        whites(state.drop_last()) + if state.last() == 0 {
            1nat
        } else {
            0nat
        }
    }
}

proof fn lemma_whites_mono(s: Seq<u8>, t: Seq<u8>)
    requires
        s.len() == t.len(),
        forall|x: int| 0 <= x < s.len() && s[x] != 0 ==> t[x] != 0,
    ensures
        whites(t) <= whites(s),
    decreases s.len(),
{
    if s.len() > 0 {
        lemma_whites_mono(s.drop_last(), t.drop_last());
    }
}

proof fn lemma_whites_paint(s: Seq<u8>, i: int, v: u8)
    requires
        0 <= i < s.len(),
        s[i] == 0,
        v != 0,
    ensures
        whites(s.update(i, v)) + 1 == whites(s),
    decreases s.len(),
{
    let t = s.update(i, v);
    if i < s.len() - 1 {
        assert(t.drop_last() =~= s.drop_last().update(i, v));
        lemma_whites_paint(s.drop_last(), i, v);
    } else {
        assert(t.drop_last() =~= s.drop_last());
    }
}

/// Every neighbour of a black node is black.
pub open spec fn black_closed(adj: Seq<Vec<usize>>, state: Seq<u8>) -> bool {
    forall|x: int, t: int|
        0 <= x < adj.len() && state[x] == 2 && 0 <= t < adj[x]@.len() ==> state[#[trigger] adj[x]@[t] as int] == 2
}

/// No cycle runs through black nodes only.
pub open spec fn black_acyclic(adj: Seq<Vec<usize>>, state: Seq<u8>) -> bool {
    forall|c: Seq<usize>| #[trigger] is_cycle(adj, c) ==> exists|i: int| 0 <= i < c.len() && state[c[i] as int] != 2
}

/// Painting gray `u` black keeps the black nodes free of cycles, when every
/// neighbour of `u` is black already and every black node's neighbours are.
proof fn lemma_blacken_acyclic(adj: Seq<Vec<usize>>, s: Seq<u8>, u: int)
    requires
        adj_ok(adj),
        s.len() == adj.len(),
        0 <= u < adj.len(),
        s[u] == 1,
        black_closed(adj, s),
        black_acyclic(adj, s),
        forall|t: int| 0 <= t < adj[u]@.len() ==> s[#[trigger] adj[u]@[t] as int] == 2,
    ensures
        black_acyclic(adj, s.update(u, 2)),
{
    let s2 = s.update(u, 2);
    assert forall|c: Seq<usize>| #[trigger] is_cycle(adj, c) implies exists|i: int| 0 <= i < c.len() && s2[c[i] as int] != 2 by {
        if forall|i: int| 0 <= i < c.len() ==> s2[c[i] as int] == 2 {
            if exists|i: int| 0 <= i < c.len() && c[i] == u {
                let i = choose|i: int| 0 <= i < c.len() && c[i] == u;
                let p = if i == 0 {
                    c.len() - 1
                } else {
                    i - 1
                };
                let w = c[p];
                if i == 0 {
                    assert(adj[w as int]@.contains(c[0]));
                } else {
                    assert(edge_at(adj, c, p));
                }
                let t = choose|t: int| 0 <= t < adj[w as int]@.len() && adj[w as int]@[t] == u as usize;
                assert(s2[w as int] == 2);
                if w as int == u {
                    assert(s[adj[u]@[t] as int] == 2);
                } else {
                    assert(s[w as int] == 2);
                    assert(s[adj[w as int]@[t] as int] == 2);
                }
            } else {
                let i = choose|i: int| 0 <= i < c.len() && s[c[i] as int] != 2;
                assert(c[i] != u);
                assert(s2[c[i] as int] == 2);
            }
        }
    }
}

/// The gray nodes are those of `path`, each discovered from the one before.
pub open spec fn gray_path(adj: Seq<Vec<usize>>, state: Seq<u8>, parent: Seq<usize>, path: Seq<usize>) -> bool {
    &&& forall|t: int| 0 <= t < path.len() ==> #[trigger] path[t] < adj.len()
    &&& forall|x: int| 0 <= x < state.len() ==> (state[x] == 1 <==> path.contains(x as usize))
    &&& forall|t: int| 0 < t < path.len() ==> parent[#[trigger] path[t] as int] == path[t - 1]
    &&& forall|t: int| 0 < t < path.len() ==> adj[path[t - 1] as int]@.contains(#[trigger] path[t])
}

/// Search from white `u`, reached along the gray `path`.
fn dfs(
    u: usize,
    adj: &Vec<Vec<usize>>,
    state: &mut Vec<u8>,
    parent: &mut Vec<usize>,
    Ghost(path): Ghost<Seq<usize>>,
) -> (r: Option<Vec<usize>>)
    requires
        adj_ok(adj@),
        old(state)@.len() == adj@.len(),
        old(parent)@.len() == adj@.len(),
        u < adj@.len(),
        old(state)@[u as int] == 0,
        forall|x: int| 0 <= x < adj@.len() ==> #[trigger] old(state)@[x] <= 2,
        gray_path(adj@, old(state)@, old(parent)@, path),
        path.len() > 0 ==> old(parent)@[u as int] == path.last() && adj@[path.last() as int]@.contains(u),
    ensures
        final(state)@.len() == adj@.len(),
        final(parent)@.len() == adj@.len(),
        forall|x: int| 0 <= x < adj@.len() && old(state)@[x] != 0 ==> #[trigger] final(parent)@[x] == old(parent)@[x],
        match r {
            Some(c) => is_cycle(adj@, c@),
            None => {
                &&& final(state)@[u as int] == 2
                &&& forall|x: int|
                    0 <= x < adj@.len() ==> (old(state)@[x] != 0 ==> #[trigger] final(state)@[x] == old(state)@[x])
                        && (old(state)@[x] == 0 ==> final(state)@[x] == 0 || final(state)@[x] == 2)
                &&& black_closed(adj@, old(state)@) && black_acyclic(adj@, old(state)@) ==> black_closed(adj@, final(state)@)
                    && black_acyclic(adj@, final(state)@)
            },
        },
    decreases whites(old(state)@),
{
    let n_nodes = adj.len();
    let ghost n = adj@.len();
    let ghost s0 = state@;
    let ghost p0 = parent@;
    let ghost full = path.push(u);
    proof {
        lemma_whites_paint(s0, u as int, 1);
    }
    state.set(u, 1);
    let ghost ok0 = black_closed(adj@, s0) && black_acyclic(adj@, s0);
    proof {
        if ok0 {
            assert forall|x: int, t: int|
                0 <= x < adj@.len() && state@[x] == 2 && 0 <= t < adj@[x]@.len() implies state@[#[trigger] adj@[x]@[t] as int]
                == 2 by {
                assert(s0[x] == 2);
                assert(s0[adj@[x]@[t] as int] == 2);
            }
            assert forall|c: Seq<usize>| #[trigger] is_cycle(adj@, c) implies exists|i: int|
                0 <= i < c.len() && state@[c[i] as int] != 2 by {
                let i = choose|i: int| 0 <= i < c.len() && s0[c[i] as int] != 2;
                assert(state@[c[i] as int] != 2);
            }
        }
        assert forall|x: int| 0 <= x < n implies (state@[x] == 1 <==> full.contains(x as usize)) by {
            if x == u {
                assert(full[path.len() as int] == u);
            } else {
                assert(state@[x] == s0[x]);
                assert(s0[x] == 1 <==> path.contains(x as usize));
                if full.contains(x as usize) {
                    let t = choose|t: int| 0 <= t < full.len() && full[t] == x as usize;
                    if t == path.len() {
                        assert(full[t] == u);
                        assert(false);
                    }
                    assert(path[t] == x as usize);
                }
                if path.contains(x as usize) {
                    let t = choose|t: int| 0 <= t < path.len() && path[t] == x as usize;
                    assert(full[t] == x as usize);
                }
            }
        }
    }
    let mut idx: usize = 0;
    while idx < adj[u].len()
        invariant
            adj_ok(adj@),
            n == adj@.len(),
            n == n_nodes,
            u < n,
            s0 == old(state)@,
            p0 == old(parent)@,
            full == path.push(u),
            state@.len() == n,
            parent@.len() == n,
            state@[u as int] == 1,
            forall|x: int| 0 <= x < n ==> #[trigger] state@[x] <= 2,
            whites(state@) + 1 <= whites(s0),
            s0[u as int] == 0,
            gray_path(adj@, state@, parent@, full),
            forall|x: int| 0 <= x < n && s0[x] != 0 ==> #[trigger] parent@[x] == p0[x],
            forall|x: int|
                0 <= x < n && x != u ==> (s0[x] != 0 ==> #[trigger] state@[x] == s0[x]) && (s0[x] == 0 ==> state@[x]
                    == 0 || state@[x] == 2),
            path.len() > 0 ==> p0[u as int] == path.last() && adj@[path.last() as int]@.contains(u),
            ok0 == (black_closed(adj@, s0) && black_acyclic(adj@, s0)),
            ok0 ==> black_closed(adj@, state@) && black_acyclic(adj@, state@),
            idx <= adj@[u as int]@.len(),
            forall|t: int| 0 <= t < idx ==> state@[#[trigger] adj@[u as int]@[t] as int] == 2,
        decreases adj@[u as int]@.len() - idx,
    {
        let v = adj[u][idx];
        assert(adj@[u as int]@.contains(v));
        if state[v] == 0 {
            let ghost s1 = state@;
            let ghost par1 = parent@;
            parent.set(v, u);
            proof {
                assert forall|t: int| 0 < t < full.len() implies parent@[#[trigger] full[t] as int] == full[t - 1] by {
                    assert(full.contains(full[t]));
                    assert(s1[full[t] as int] == 1);
                }
                assert(gray_path(adj@, state@, parent@, full));
                assert(full.last() == u);
            }
            assert(whites(state@) < whites(s0));
            let found = dfs(v, adj, state, parent, Ghost(full));
            match found {
                Some(c) => {
                    proof {
                        assert forall|x: int| 0 <= x < n && s0[x] != 0 implies #[trigger] parent@[x] == p0[x] by {
                            if x != u {
                                assert(s1[x] != 0);
                            }
                        }
                    }
                    return Some(c);
                },
                None => {
                    proof {
                        lemma_whites_mono(s1, state@);
                        assert forall|x: int| 0 <= x < n && s0[x] != 0 implies #[trigger] parent@[x] == p0[x] by {
                            if x != u {
                                assert(s1[x] != 0);
                            }
                        }
                        assert(gray_path(adj@, state@, parent@, full)) by {
                            assert forall|t: int| 0 < t < full.len() implies parent@[#[trigger] full[t] as int]
                                == full[t - 1] by {
                                assert(full.contains(full[t]));
                            }
                        }
                    }
                },
            }
        } else if state[v] == 1 {
            // `v` is on the path to `u`: walk the discovery links back from
            // `u` to it.
            let cycle = close_cycle(u, v, adj, parent, Ghost(full));
            return Some(cycle);
        }
        idx = idx + 1;
    }
    let ghost s2 = state@;
    state.set(u, 2);
    proof {
        assert forall|x: int| 0 <= x < n && s0[x] != 0 implies #[trigger] state@[x] == s0[x] by {
            assert(x != u);
            assert(s2[x] == s0[x]);
        }
        if ok0 {
            lemma_blacken_acyclic(adj@, s2, u as int);
            assert(state@ == s2.update(u as int, 2));
            assert forall|x: int, t: int|
                0 <= x < adj@.len() && state@[x] == 2 && 0 <= t < adj@[x]@.len() implies state@[#[trigger] adj@[x]@[t] as int]
                == 2 by {
                if x == u {
                    assert(s2[adj@[x]@[t] as int] == 2);
                } else {
                    assert(s2[x] == 2);
                    assert(s2[adj@[x]@[t] as int] == 2);
                }
            }
        }
    }
    None
}

/// The cycle that the edge from `u`, last on the gray path `full`, back to
/// `v` on that path closes: the path from just after `v` to `u`, then `v`.
fn close_cycle(u: usize, v: usize, adj: &Vec<Vec<usize>>, parent: &Vec<usize>, Ghost(full): Ghost<Seq<usize>>) -> (r: Vec<
    usize,
>)
    requires
        adj_ok(adj@),
        parent@.len() == adj@.len(),
        full.len() > 0,
        full.last() == u,
        full.contains(v),
        adj@[u as int]@.contains(v),
        forall|t: int| 0 <= t < full.len() ==> #[trigger] full[t] < adj@.len(),
        forall|t: int| 0 < t < full.len() ==> parent@[#[trigger] full[t] as int] == full[t - 1],
        forall|t: int| 0 < t < full.len() ==> adj@[full[t - 1] as int]@.contains(#[trigger] full[t]),
    ensures
        is_cycle(adj@, r@),
{
    let n_nodes = adj.len();
    let ghost n = adj@.len();
    let ghost iv = choose|t: int| 0 <= t < full.len() && full[t] == v;
    let mut back: Vec<usize> = Vec::new();
    back.push(v);
    let mut curr = u;
    let ghost mut t: int = full.len() - 1;
    while curr != v && curr != usize::MAX
        invariant
            adj_ok(adj@),
            n == adj@.len(),
            n == n_nodes,
            parent@.len() == n,
            forall|t: int| 0 <= t < full.len() ==> #[trigger] full[t] < adj@.len(),
            forall|t: int| 0 < t < full.len() ==> parent@[#[trigger] full[t] as int] == full[t - 1],
            0 <= iv <= t < full.len(),
            full[iv] == v,
            curr == full[t],
            back@.len() == full.len() - t,
            back@[0] == v,
            forall|z: int| 1 <= z < back@.len() ==> #[trigger] back@[z] == full[full.len() - z],
        decreases t,
    {
        back.push(curr);
        proof {
            assert(t != iv);
            assert(parent@[full[t] as int] == full[t - 1]);
        }
        curr = parent[curr];
        proof {
            t = t - 1;
        }
    }
    let mut cycle: Vec<usize> = Vec::new();
    let mut z: usize = back.len();
    while z > 0
        invariant
            z <= back@.len(),
            cycle@.len() == back@.len() - z,
            forall|y: int| 0 <= y < cycle@.len() ==> #[trigger] cycle@[y] == back@[back@.len() - 1 - y],
        decreases z,
    {
        z = z - 1;
        cycle.push(back[z]);
    }
    proof {
        // The cycle runs along the path from just after `v` to `u`,
        // then back to `v`.
        assert(full[t] == v);
        let len = cycle@.len();
        assert(len == full.len() - t);
        assert forall|y: int| 0 <= y < len implies #[trigger] cycle@[y] == full[t + 1 + y] || (y == len - 1
            && cycle@[y] == v) by {
            if y < len - 1 {
                assert(cycle@[y] == back@[len - 1 - y]);
                assert(back@[len - 1 - y] == full[full.len() - (len - 1 - y)]);
            } else {
                assert(cycle@[y] == back@[0]);
            }
        }
        assert forall|y: int| 0 <= y < len implies #[trigger] cycle@[y] < adj@.len() by {
            if y < len - 1 {
                assert(cycle@[y] == full[t + 1 + y]);
            }
        }
        assert forall|y: int| 0 <= y < len - 1 implies #[trigger] edge_at(adj@, cycle@, y) by {
            assert(cycle@[y] == full[t + 1 + y]);
            if y + 1 < len - 1 {
                assert(cycle@[y + 1] == full[t + 1 + y + 1]);
                assert(adj@[full[t + 1 + y] as int]@.contains(full[t + 1 + y + 1]));
            } else {
                assert(cycle@[y + 1] == v);
                assert(full[t + 1 + y] == u);
            }
        }
        if len > 1 {
            assert(cycle@[0] == full[t + 1]);
            assert(adj@[full[t] as int]@.contains(full[t + 1]));
        } else {
            assert(v == u);
        }
    }
    cycle
}

/// Searches depth first from the white node `u` for a directed cycle, with
/// `state` colouring the nodes white (0), gray (1) or black (2) and `parent`
/// recording where each node was reached from. Returns a cycle, listed along
/// its edges, or `None` when the search from `u` is done, `u` and every node
/// it reached then black. Where every neighbour of a black node was black
/// and no cycle ran through black nodes only, both still hold after `None`.
pub fn find_cycle_dfs(u: usize, adj: &Vec<Vec<usize>>, state: &mut Vec<u8>, parent: &mut Vec<usize>) -> (r: Option<
    Vec<usize>,
>)
    requires
        adj_ok(adj@),
        old(state)@.len() == adj@.len(),
        old(parent)@.len() == adj@.len(),
        u < adj@.len(),
        old(state)@[u as int] == 0,
        forall|x: int| 0 <= x < adj@.len() ==> #[trigger] old(state)@[x] == 0 || old(state)@[x] == 2,
    ensures
        final(state)@.len() == adj@.len(),
        final(parent)@.len() == adj@.len(),
        match r {
            Some(c) => is_cycle(adj@, c@),
            None => {
                &&& final(state)@[u as int] == 2
                &&& forall|x: int|
                    0 <= x < adj@.len() ==> (old(state)@[x] != 0 ==> #[trigger] final(state)@[x] == old(state)@[x])
                        && (old(state)@[x] == 0 ==> final(state)@[x] == 0 || final(state)@[x] == 2)
                &&& black_closed(adj@, old(state)@) && black_acyclic(adj@, old(state)@) ==> black_closed(adj@, final(state)@)
                    && black_acyclic(adj@, final(state)@)
            },
        },
{
    let ghost empty = Seq::<usize>::empty();
    proof {
        assert forall|x: int| 0 <= x < state@.len() implies (state@[x] == 1 <==> empty.contains(x as usize)) by {}
    }
    dfs(u, adj, state, parent, Ghost(empty))
}

} // verus!
