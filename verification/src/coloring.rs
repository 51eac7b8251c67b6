//! Graph colouring: the exact backtracking colouring and the DSatur heuristic
//! that the dimension algorithms colour their incompatibility graphs with.
use vstd::prelude::*;

verus! {

/// `u` and `v` are distinct vertices below `n` joined by one of `edges`, in
/// either direction. Edges that leave `0..n` and loops are ignored.
pub open spec fn graph_edge(n: nat, edges: Seq<(usize, usize)>, u: int, v: int) -> bool {
    &&& u != v
    &&& 0 <= u < n
    &&& 0 <= v < n
    &&& exists|i: int|
        0 <= i < edges.len() && ((edges[i].0 == u && edges[i].1 == v) || (edges[i].0 == v
            && edges[i].1 == u))
}

/// `colors` gives each of the `n` vertices one of the colours `0..k`, and no
/// edge joins two vertices of the same colour.
pub open spec fn is_proper_coloring(
    n: nat,
    edges: Seq<(usize, usize)>,
    colors: Seq<usize>,
    k: nat,
) -> bool {
    &&& colors.len() == n
    &&& forall|v: int| 0 <= v < n ==> colors[v] < k
    &&& forall|u: int, v: int| #[trigger] graph_edge(n, edges, u, v) ==> colors[u] != colors[v]
}

/// The graph has a proper colouring with `k` colours.
pub open spec fn colorable(n: nat, edges: Seq<(usize, usize)>, k: nat) -> bool {
    exists|colors: Seq<usize>| is_proper_coloring(n, edges, colors, k)
}

/// The colour of vertex `ordering[i]` is the smallest colour that no
/// neighbour placed before it in `ordering` has: every smaller colour is taken
/// by such a neighbour, and its own is not.
pub open spec fn greedy_at(
    n: nat,
    edges: Seq<(usize, usize)>,
    colors: Seq<usize>,
    ordering: Seq<usize>,
    i: int,
) -> bool {
    &&& forall|j: int|
        0 <= j < i && graph_edge(n, edges, ordering[i] as int, ordering[j] as int)
            ==> colors[ordering[j] as int] != colors[ordering[i] as int]
    &&& forall|c: usize|
        c < colors[ordering[i] as int] ==> #[trigger] taken_before(n, edges, colors, ordering, i, c)
}

/// Some neighbour of `ordering[i]` placed before it in `ordering` has colour
/// `c`.
pub open spec fn taken_before(
    n: nat,
    edges: Seq<(usize, usize)>,
    colors: Seq<usize>,
    ordering: Seq<usize>,
    i: int,
    c: usize,
) -> bool {
    exists|j: int|
        0 <= j < i && graph_edge(n, edges, ordering[i] as int, ordering[j] as int)
            && colors[ordering[j] as int] == c
}

/// `ordering` lists every vertex `0..n` exactly once.
pub open spec fn is_vertex_ordering(n: nat, ordering: Seq<usize>) -> bool {
    &&& ordering.len() == n
    &&& forall|i: int| 0 <= i < n ==> ordering[i] < n
    &&& forall|i: int, j: int| 0 <= i < j < n ==> ordering[i] != ordering[j]
}

/// The largest colour plus one, or 0 for no vertices.
pub open spec fn colors_used(colors: Seq<usize>) -> nat {
    if colors.len() == 0 {
        0
    } else {
        (Seq::new(colors.len(), |i: int| colors[i] as int).max() + 1) as nat
    }
}

// ---- adjacency lists ----------------------------------------------------

/// `adj[u]` lists `v` exactly when an edge of `edges` inside `0..n` joins
/// `u` and `v` (a loop lists `u` in its own row).
spec fn adjacency_of(adj: Seq<Vec<usize>>, n: nat, edges: Seq<(usize, usize)>) -> bool {
    &&& adj.len() == n
    &&& forall|u: int, v: usize|
        0 <= u < n ==> (#[trigger] adj[u]@.contains(v) <==> (v < n && exists|i: int|
            0 <= i < edges.len() && ((edges[i].0 == u && edges[i].1 == v) || (edges[i].0 == v
                && edges[i].1 == u))))
}

proof fn lemma_adjacency_edge(adj: Seq<Vec<usize>>, n: nat, edges: Seq<(usize, usize)>)
    requires
        adjacency_of(adj, n, edges),
    ensures
        forall|u: int, v: usize|
            0 <= u < n && v < n && u != v ==> (graph_edge(n, edges, u, v as int)
                <==> #[trigger] adj[u]@.contains(v)),
        forall|u: int, v: usize|
            0 <= u < n && #[trigger] adj[u]@.contains(v) ==> v < n && adj[v as int]@.contains(
                u as usize,
            ),
{
}

fn build_adjacency(n: usize, edges: &[(usize, usize)]) -> (adj: Vec<Vec<usize>>)
    ensures
        adjacency_of(adj@, n as nat, edges@),
{
    let mut adj: Vec<Vec<usize>> = Vec::new();
    let mut i: usize = 0;
    while i < n
        invariant
            i <= n,
            adj@.len() == i,
            forall|u: int| 0 <= u < i ==> adj@[u]@.len() == 0,
        decreases n - i,
    {
        adj.push(Vec::new());
        i = i + 1;
    }
    let mut e: usize = 0;
    while e < edges.len()
        invariant
            e <= edges@.len(),
            adj@.len() == n,
            forall|u: int, v: usize|
                0 <= u < n ==> (#[trigger] adj@[u]@.contains(v) <==> (v < n && exists|i: int|
                    0 <= i < e && ((edges@[i].0 == u && edges@[i].1 == v) || (edges@[i].0 == v
                        && edges@[i].1 == u)))),
        decreases edges@.len() - e,
    {
        let (u, v) = edges[e];
        let ghost before = adj@;
        if u < n && v < n {
            adj[u].push(v);
            let ghost mid = adj@;
            adj[v].push(u);
            assert forall|a: int, b: usize| 0 <= a < n implies (#[trigger] adj@[a]@.contains(b) <==> (
                before[a]@.contains(b) || (a == u && b == v) || (a == v && b == u))) by {
                if a == u as int && a == v as int {
                    assert(adj@[a]@ == before[a]@.push(v).push(u));
                } else if a == u as int {
                    assert(adj@[a]@ == before[a]@.push(v));
                } else if a == v as int {
                    assert(adj@[a]@ == before[a]@.push(u));
                } else {
                    assert(adj@[a] == before[a]);
                }
                if before[a]@.contains(b) {
                    let w = choose|w: int| 0 <= w < before[a]@.len() && before[a]@[w] == b;
                    assert(adj@[a]@[w] == b);
                }
                if adj@[a]@.contains(b) {
                    let w = choose|w: int| 0 <= w < adj@[a]@.len() && adj@[a]@[w] == b;
                    if w < before[a]@.len() {
                        assert(before[a]@[w] == b);
                    }
                }
                if (a == u && b == v) {
                    assert(adj@[a]@[before[a]@.len() as int] == v);
                }
                if (a == v && b == u) {
                    assert(adj@[a]@[adj@[a]@.len() - 1] == u);
                }
            }
        }
        assert forall|a: int, b: usize| 0 <= a < n implies (#[trigger] adj@[a]@.contains(b) <==> (b < n && exists|i: int|
            0 <= i < e + 1 && ((edges@[i].0 == a && edges@[i].1 == b) || (edges@[i].0 == b
                && edges@[i].1 == a)))) by {
            if adj@[a]@.contains(b) && !before[a]@.contains(b) {
                assert(edges@[e as int] == (u, v));
            }
            if (exists|i: int|
                0 <= i < e + 1 && ((edges@[i].0 == a && edges@[i].1 == b) || (edges@[i].0 == b
                    && edges@[i].1 == a))) && b < n {
                let i = choose|i: int|
                    0 <= i < e + 1 && ((edges@[i].0 == a && edges@[i].1 == b) || (edges@[i].0 == b
                        && edges@[i].1 == a));
                if i == e {
                    assert(edges@[e as int] == (u, v));
                }
            }
        }
        e = e + 1;
    }
    adj
}

// ---- exact colouring ----------------------------------------------------

/// The first `m` vertices have colours below `k`, and no two adjacent ones
/// among them share one.
spec fn partial_ok(adj: Seq<Vec<usize>>, colors: Seq<usize>, k: nat, m: int) -> bool {
    &&& forall|u: int| 0 <= u < m ==> colors[u] < k
    &&& forall|u: int, v: usize|
        0 <= u < m && v < m && u != v && #[trigger] adj[u]@.contains(v) ==> colors[u]
            != colors[v as int]
}

spec fn proper_adj(adj: Seq<Vec<usize>>, colors: Seq<usize>, k: nat) -> bool {
    colors.len() == adj.len() && partial_ok(adj, colors, k, adj.len() as int)
}

spec fn agrees(a: Seq<usize>, b: Seq<usize>, m: int) -> bool {
    forall|i: int| 0 <= i < m ==> a[i] == b[i]
}

spec fn symmetric_in_range(adj: Seq<Vec<usize>>) -> bool {
    forall|u: int, v: usize|
        0 <= u < adj.len() && #[trigger] adj[u]@.contains(v) ==> v < adj.len()
            && adj[v as int]@.contains(u as usize)
}

/// Backtracking: extends the colouring of the vertices before `node` to all
/// vertices with `k` colours, trying colours in increasing order.
fn backtrack_color(node: usize, k: usize, colors: &mut Vec<usize>, adj: &Vec<Vec<usize>>) -> (r:
    bool)
    requires
        node <= old(colors)@.len(),
        old(colors)@.len() == adj@.len(),
        symmetric_in_range(adj@),
        partial_ok(adj@, old(colors)@, k as nat, node as int),
    ensures
        final(colors)@.len() == old(colors)@.len(),
        agrees(final(colors)@, old(colors)@, node as int),
        r ==> proper_adj(adj@, final(colors)@, k as nat),
        !r ==> forall|c: Seq<usize>|
            c.len() == adj@.len() && agrees(c, old(colors)@, node as int) ==> !proper_adj(
                adj@,
                c,
                k as nat,
            ),
    decreases old(colors)@.len() - node,
{
    if node == colors.len() {
        return true;
    }
    let ghost orig = colors@;
    assert(node + 1 <= usize::MAX);
    let mut c: usize = 0;
    while c < k
        invariant
            node < colors@.len(),
            colors@.len() == orig.len() == adj@.len(),
            colors@.len() == old(colors)@.len(),
            orig == old(colors)@,
            node + 1 <= usize::MAX,
            symmetric_in_range(adj@),
            partial_ok(adj@, orig, k as nat, node as int),
            agrees(colors@, orig, node as int),
            forall|cc: Seq<usize>|
                cc.len() == adj@.len() && agrees(cc, orig, node as int) && proper_adj(
                    adj@,
                    cc,
                    k as nat,
                ) ==> cc[node as int] >= c,
        decreases k - c,
    {
        let row = &adj[node];
        let mut ok = true;
        let mut j: usize = 0;
        while j < row.len()
            invariant
                node < colors@.len(),
                colors@.len() == adj@.len(),
                row == adj@[node as int],
                j <= row@.len(),
                ok <==> forall|t: int|
                    0 <= t < j ==> row@[t] >= node || colors@[row@[t] as int] != c,
                symmetric_in_range(adj@),
            decreases row@.len() - j,
        {
            let nb = row[j];
            proof {
                assert(row@.contains(nb));
            }
            if nb < node && colors[nb] == c {
                ok = false;
            }
            j = j + 1;
        }
        if ok {
            colors.set(node, c);
            assert(partial_ok(adj@, colors@, k as nat, node + 1)) by {
                assert forall|u: int, v: usize|
                    0 <= u < node + 1 && v < node + 1 && u != v
                        && #[trigger] adj@[u]@.contains(v) implies colors@[u]
                    != colors@[v as int] by {
                    if u == node {
                        let t = choose|t: int| 0 <= t < row@.len() && row@[t] == v;
                    } else if v == node {
                        assert(adj@[v as int]@.contains(u as usize));
                        let t = choose|t: int| 0 <= t < row@.len() && row@[t] == u as usize;
                    } else {
                        assert(orig[u] == colors@[u] && orig[v as int] == colors@[v as int]);
                    }
                }
            }
            let ghost before_call = colors@;
            if backtrack_color(node + 1, k, colors, adj) {
                return true;
            }
            assert forall|cc: Seq<usize>|
                cc.len() == adj@.len() && agrees(cc, orig, node as int) && proper_adj(
                    adj@,
                    cc,
                    k as nat,
                ) implies cc[node as int] >= c + 1 by {
                if cc[node as int] == c {
                    assert(agrees(cc, before_call, node + 1));
                }
            }
        } else {
            assert forall|cc: Seq<usize>|
                cc.len() == adj@.len() && agrees(cc, orig, node as int) && proper_adj(
                    adj@,
                    cc,
                    k as nat,
                ) implies cc[node as int] >= c + 1 by {
                if cc[node as int] == c {
                    let t = choose|t: int|
                        0 <= t < row@.len() && !(row@[t] >= node || colors@[row@[t] as int] != c);
                    let u = row@[t] as int;
                    assert(adj@[node as int]@.contains(u as usize));
                    assert(cc[u] == orig[u]);
                }
            }
        }
        c = c + 1;
    }
    assert forall|cc: Seq<usize>|
        cc.len() == adj@.len() && agrees(cc, orig, node as int) implies !proper_adj(
        adj@,
        cc,
        k as nat,
    ) by {
        if proper_adj(adj@, cc, k as nat) {
            assert(cc[node as int] < k);
        }
    }
    false
}

proof fn lemma_proper_iff(
    adj: Seq<Vec<usize>>,
    n: nat,
    edges: Seq<(usize, usize)>,
    colors: Seq<usize>,
    k: nat,
)
    requires
        adjacency_of(adj, n, edges),
    ensures
        proper_adj(adj, colors, k) <==> is_proper_coloring(n, edges, colors, k),
{
    lemma_adjacency_edge(adj, n, edges);
    if proper_adj(adj, colors, k) {
        assert forall|u: int, v: int| #[trigger] graph_edge(n, edges, u, v) implies colors[u]
            != colors[v] by {
            assert(adj[u]@.contains(v as usize));
        }
    }
    if is_proper_coloring(n, edges, colors, k) {
        assert forall|u: int, v: usize|
            0 <= u < adj.len() && v < adj.len() && u != v && #[trigger] adj[u]@.contains(
                v,
            ) implies colors[u] != colors[v as int] by {
            assert(graph_edge(n, edges, u, v as int));
        }
    }
}

/// Exact graph colouring by backtracking (Brown's algorithm).
///
/// Returns the chromatic number of the graph on the vertices `0..n` (edges
/// that leave that range, and loops, are ignored) together with a colouring
/// that attains it.
pub fn chromatic_number_exact(n: usize, edges: &[(usize, usize)]) -> (r: (usize, Vec<usize>))
    ensures
        is_proper_coloring(n as nat, edges@, r.1@, r.0 as nat),
        forall|j: nat| j < r.0 ==> !colorable(n as nat, edges@, j),
{
    if n == 0 {
        return (0, Vec::new());
    }
    let adj = build_adjacency(n, edges);
    proof {
        lemma_adjacency_edge(adj@, n as nat, edges@);
        assert(symmetric_in_range(adj@));
        assert forall|cc: Seq<usize>| !is_proper_coloring(n as nat, edges@, cc, 0) by {
            if cc.len() == n {
                assert(cc[0] >= 0);
            }
        }
    }
    let mut k: usize = 1;
    loop
        invariant
            1 <= k <= n,
            n > 0,
            adjacency_of(adj@, n as nat, edges@),
            symmetric_in_range(adj@),
            forall|j: nat| j < k ==> !colorable(n as nat, edges@, j),
        ensures
            forall|j: nat| j <= n ==> !colorable(n as nat, edges@, j),
        decreases n - k,
    {
        let mut colors: Vec<usize> = Vec::new();
        let mut i: usize = 0;
        while i < n
            invariant
                i <= n,
                colors@.len() == i,
                forall|t: int| 0 <= t < i ==> colors@[t] == 0,
            decreases n - i,
        {
            colors.push(0);
            i = i + 1;
        }
        if backtrack_color(0, k, &mut colors, &adj) {
            proof {
                lemma_proper_iff(adj@, n as nat, edges@, colors@, k as nat);
            }
            return (k, colors);
        }
        proof {
            assert forall|cc: Seq<usize>| !is_proper_coloring(n as nat, edges@, cc, k as nat) by {
                lemma_proper_iff(adj@, n as nat, edges@, cc, k as nat);
            }
            assert forall|j: nat| j < k + 1 implies !colorable(n as nat, edges@, j) by {
                if j == k {
                    if colorable(n as nat, edges@, j) {
                        let cc = choose|cc: Seq<usize>| is_proper_coloring(n as nat, edges@, cc, j);
                    }
                }
            }
        }
        if k == n {
            break;
        }
        k = k + 1;
    }
    // Giving every vertex a colour of its own is always proper, so the loop
    // above has returned by now.
    proof {
        let id = Seq::new(n as nat, |i: int| i as usize);
        assert(is_proper_coloring(n as nat, edges@, id, n as nat));
        assert(!colorable(n as nat, edges@, n as nat));
    }
    let mut colors: Vec<usize> = Vec::new();
    let mut i: usize = 0;
    while i < n
        invariant
            i <= n,
            colors@.len() == i,
            forall|t: int| 0 <= t < i ==> colors@[t] == t,
        decreases n - i,
    {
        colors.push(i);
        i = i + 1;
    }
    (n, colors)
}

// ---- DSatur ------------------------------------------------------------

/// `n` distinct values below `n` are all of them.
pub(crate) proof fn lemma_perm_covers(s: Seq<usize>, n: nat)
    requires
        s.len() == n,
        forall|i: int| 0 <= i < n ==> s[i] < n,
        forall|i: int, j: int| 0 <= i < j < n ==> s[i] != s[j],
    ensures
        forall|u: usize| u < n ==> s.contains(u),
{
    broadcast use vstd::seq_lib::seq_to_set_is_finite;

    assert forall|u: usize| u < n implies s.contains(u) by {
        if !s.contains(u) {
            assert(s.no_duplicates()) by {
                assert forall|i: int, j: int| 0 <= i < s.len() && 0 <= j < s.len() && i != j implies s[i]
                    != s[j] by {
                    if i < j {
                    } else {
                    }
                }
            }
            s.unique_seq_to_set();
            let f = |x: usize| x as int;
            let image = s.to_set().map(f);
            assert(vstd::relations::injective_on(f, s.to_set()));
            vstd::set_lib::lemma_map_size(s.to_set(), image, f);
            let range = vstd::set_lib::set_int_range(0, n as int).remove(u as int);
            vstd::set_lib::lemma_int_range(0, n as int);
            assert forall|x: int| image.contains(x) implies range.contains(x) by {
                let y = choose|y: usize| s.to_set().contains(y) && f(y) == x;
                let i = choose|i: int| 0 <= i < s.len() && s[i] == y;
            }
            vstd::set_lib::lemma_len_subset(image, range);
        }
    }
}

/// A sequence that holds every `x < m` is at least `m` long.
pub(crate) proof fn lemma_pigeon(s: Seq<usize>, m: nat)
    requires
        m <= usize::MAX + 1,
        forall|x: usize| x < m ==> s.contains(x),
    ensures
        m <= s.len(),
{
    broadcast use vstd::seq_lib::seq_to_set_is_finite;

    let f = |x: usize| x as int;
    let image = s.to_set().map(f);
    s.lemma_cardinality_of_set();
    vstd::set_lib::lemma_map_size_bound(s.to_set(), image, f);
    vstd::set_lib::lemma_int_range(0, m as int);
    assert forall|x: int| vstd::set_lib::set_int_range(0, m as int).contains(x) implies
        image.contains(x) by {
        assert(s.contains(x as usize));
        assert(s.to_set().contains(x as usize));
        assert(f(x as usize) == x);
    }
    vstd::set_lib::lemma_len_subset(vstd::set_lib::set_int_range(0, m as int), image);
}

/// Some neighbour of `w` among the first `t` vertices of `ordering` has
/// colour `x`.
pub open spec fn seen_colour(
    n: nat,
    edges: Seq<(usize, usize)>,
    colors: Seq<usize>,
    ordering: Seq<usize>,
    t: int,
    w: int,
    x: usize,
) -> bool {
    exists|j: int| 0 <= j < t && graph_edge(n, edges, w, ordering[j] as int) && colors[ordering[j] as int] == x
}

/// How many of the colours below `k` some neighbour of `w` among the
/// first `t` vertices of `ordering` has.
pub open spec fn colours_seen(
    n: nat,
    edges: Seq<(usize, usize)>,
    colors: Seq<usize>,
    ordering: Seq<usize>,
    t: int,
    w: int,
    k: nat,
) -> nat
    decreases k,
{
    if k == 0 {
        0
    } else {
        colours_seen(n, edges, colors, ordering, t, w, (k - 1) as nat) + if seen_colour(
            n,
            edges,
            colors,
            ordering,
            t,
            w,
            (k - 1) as usize,
        ) {
            1nat
        } else {
            0nat
        }
    }
}

/// The saturation of `w` once the first `t` vertices of `ordering` are
/// coloured: the number of distinct colours among its coloured neighbours.
pub open spec fn saturation(n: nat, edges: Seq<(usize, usize)>, colors: Seq<usize>, ordering: Seq<usize>, t: int, w: int) -> nat {
    colours_seen(n, edges, colors, ordering, t, w, n)
}

/// How many of the first `k` entries of `s` are true.
pub open spec fn count_true(s: Seq<bool>, k: nat) -> nat
    decreases k,
{
    if k == 0 {
        0
    } else {
        count_true(s, (k - 1) as nat) + if s[k - 1] {
            1nat
        } else {
            0nat
        }
    }
}

proof fn lemma_count_true_seen(
    s: Seq<bool>,
    n: nat,
    edges: Seq<(usize, usize)>,
    colors: Seq<usize>,
    ordering: Seq<usize>,
    t: int,
    w: int,
    k: nat,
)
    requires
        k <= usize::MAX + 1,
        forall|x: usize| x < k ==> (s[x as int] <==> seen_colour(n, edges, colors, ordering, t, w, x)),
    ensures
        count_true(s, k) == colours_seen(n, edges, colors, ordering, t, w, k),
    decreases k,
{
    if k > 0 {
        lemma_count_true_seen(s, n, edges, colors, ordering, t, w, (k - 1) as nat);
        assert(s[k - 1] <==> seen_colour(n, edges, colors, ordering, t, w, (k - 1) as usize));
    }
}

proof fn lemma_count_true_flip(s: Seq<bool>, c: int, k: nat)
    requires
        0 <= c < s.len(),
        k <= s.len(),
    ensures
        count_true(s.update(c, true), k) == count_true(s, k) + if c < k && !s[c] {
            1int
        } else {
            0int
        },
    decreases k,
{
    if k > 0 {
        lemma_count_true_flip(s, c, (k - 1) as nat);
    }
}

proof fn lemma_count_true_none(s: Seq<bool>, k: nat)
    requires
        k <= s.len(),
        forall|x: int| 0 <= x < k ==> !s[x],
    ensures
        count_true(s, k) == 0,
    decreases k,
{
    if k > 0 {
        lemma_count_true_none(s, (k - 1) as nat);
    }
}

/// Saturations agree where the first `t` vertices and their colours do.
proof fn lemma_colours_seen_same(
    n: nat,
    edges: Seq<(usize, usize)>,
    c1: Seq<usize>,
    o1: Seq<usize>,
    c2: Seq<usize>,
    o2: Seq<usize>,
    t: int,
    w: int,
    k: nat,
)
    requires
        t <= o1.len(),
        t <= o2.len(),
        forall|j: int| 0 <= j < t ==> o1[j] == o2[j] && c1[o1[j] as int] == c2[o2[j] as int],
    ensures
        colours_seen(n, edges, c1, o1, t, w, k) == colours_seen(n, edges, c2, o2, t, w, k),
    decreases k,
{
    if k > 0 {
        lemma_colours_seen_same(n, edges, c1, o1, c2, o2, t, w, (k - 1) as nat);
        let x = (k - 1) as usize;
        if seen_colour(n, edges, c1, o1, t, w, x) {
            let j = choose|j: int| 0 <= j < t && graph_edge(n, edges, w, o1[j] as int) && c1[o1[j] as int] == x;
            assert(o2[j] == o1[j]);
        }
        if seen_colour(n, edges, c2, o2, t, w, x) {
            let j = choose|j: int| 0 <= j < t && graph_edge(n, edges, w, o2[j] as int) && c2[o2[j] as int] == x;
            assert(o2[j] == o1[j]);
        }
    }
}

/// Colouring one more vertex leaves the saturations at earlier steps as
/// they were.
proof fn lemma_saturation_stable(
    n: nat,
    edges: Seq<(usize, usize)>,
    c_old: Seq<usize>,
    o_old: Seq<usize>,
    c_new: Seq<usize>,
    o_new: Seq<usize>,
    next: usize,
    i: int,
    w: int,
)
    requires
        0 <= i <= o_old.len(),
        o_new == o_old.push(next),
        c_new == c_old.update(next as int, c_new[next as int]),
        !o_old.contains(next),
        next < c_old.len(),
        forall|j: int| 0 <= j < o_old.len() ==> #[trigger] o_old[j] < c_old.len(),
    ensures
        saturation(n, edges, c_new, o_new, i, w) == saturation(n, edges, c_old, o_old, i, w),
{
    assert forall|j: int| 0 <= j < i implies o_new[j] == o_old[j] && c_new[o_new[j] as int] == c_old[o_old[j] as int] by {
        assert(o_old.contains(o_old[j]));
        assert(o_old[j] != next);
        assert(o_old[j] < c_old.len());
    }
    lemma_colours_seen_same(n, edges, c_new, o_new, c_old, o_old, i, w, n);
}

/// DSatur's choice: the vertex coloured at each step has the largest
/// saturation among those not yet coloured.
pub open spec fn saturation_order(n: nat, edges: Seq<(usize, usize)>, colors: Seq<usize>, ordering: Seq<usize>, upto: int) -> bool {
    forall|i: int, w: int|
        #![trigger saturation(n, edges, colors, ordering, i, w)]
        0 <= i < upto && 0 <= w < n && !ordering.take(i).contains(w as usize) ==> saturation(n, edges, colors, ordering, i, w)
            <= saturation(n, edges, colors, ordering, i, ordering[i] as int)
}

/// The state of DSatur after `t = ordering.len()` vertices are coloured.
spec fn dsatur_state(
    n: nat,
    edges: Seq<(usize, usize)>,
    adj: Seq<Vec<usize>>,
    colors: Seq<usize>,
    colored: Seq<bool>,
    ordering: Seq<usize>,
    sat: Seq<usize>,
    seen: Seq<Vec<bool>>,
) -> bool {
    let t = ordering.len() as int;
    &&& adjacency_of(adj, n, edges)
    &&& colors.len() == n && colored.len() == n && sat.len() == n && seen.len() == n
    &&& t <= n
    &&& forall|i: int| 0 <= i < t ==> ordering[i] < n
    &&& forall|i: int, j: int| 0 <= i < j < t ==> ordering[i] != ordering[j]
    &&& forall|v: int| 0 <= v < n ==> (colored[v] <==> ordering.contains(v as usize))
    &&& forall|i: int| 0 <= i < t ==> greedy_at(n, edges, colors, ordering, i)
    &&& forall|i: int| 0 <= i < t ==> colors[ordering[i] as int] < n
    &&& forall|w: int| 0 <= w < n ==> seen[w]@.len() == n
    &&& forall|w: int, x: usize|
        0 <= w < n && !colored[w] && x < n ==> (#[trigger] seen[w]@[x as int] <==> exists|j: int|
            0 <= j < t && graph_edge(n, edges, w, ordering[j] as int) && colors[ordering[j] as int]
                == x)
    &&& forall|w: int| 0 <= w < n ==> sat[w] <= t
    &&& forall|w: int| 0 <= w < n && !colored[w] ==> #[trigger] sat[w] == count_true(seen[w]@, n)
}

/// DSatur (Brélaz 1979) on the vertices `0..n`: repeatedly colours the
/// uncoloured vertex with the most distinct colours among its neighbours
/// (ties: the most neighbours, then the highest index) with the smallest
/// colour none of its neighbours has.
///
/// Returns the number of colours used, the colouring, and the order in which
/// the vertices were coloured. Every vertex gets the smallest colour that its
/// neighbours coloured before it leave free, so the colouring is proper.
#[verifier::spinoff_prover]
pub fn dsatur_with_ordering(n: usize, edges: &[(usize, usize)]) -> (r: (
    usize,
    Vec<usize>,
    Vec<usize>,
))
    ensures
        is_vertex_ordering(n as nat, r.2@),
        is_proper_coloring(n as nat, edges@, r.1@, r.0 as nat),
        forall|i: int| 0 <= i < n ==> greedy_at(n as nat, edges@, r.1@, r.2@, i),
        saturation_order(n as nat, edges@, r.1@, r.2@, n as int),
        n > 0 ==> exists|v: int| 0 <= v < n && r.1@[v] + 1 == r.0,
        n == 0 ==> r.0 == 0,
{
    if n == 0 {
        return (0, Vec::new(), Vec::new());
    }
    let adj = build_adjacency(n, edges);
    proof {
        lemma_adjacency_edge(adj@, n as nat, edges@);
    }
    let mut degrees: Vec<usize> = Vec::new();
    let mut colors: Vec<usize> = Vec::new();
    let mut colored: Vec<bool> = Vec::new();
    let mut sat_counts: Vec<usize> = Vec::new();
    let mut neighbor_colors: Vec<Vec<bool>> = Vec::new();
    let mut i: usize = 0;
    while i < n
        invariant
            i <= n,
            adj@.len() == n,
            degrees@.len() == i && colors@.len() == i && colored@.len() == i,
            sat_counts@.len() == i && neighbor_colors@.len() == i,
            forall|v: int| 0 <= v < i ==> !colored@[v] && colors@[v] == 0 && sat_counts@[v] == 0,
            forall|v: int| 0 <= v < i ==> degrees@[v] == adj@[v]@.len(),
            forall|v: int| 0 <= v < i ==> #[trigger] neighbor_colors@[v]@.len() == n,
            forall|v: int, x: int|
                0 <= v < i && 0 <= x < n ==> !#[trigger] neighbor_colors@[v]@[x],
        decreases n - i,
    {
        degrees.push(adj[i].len());
        colors.push(0);
        colored.push(false);
        sat_counts.push(0);
        let mut row: Vec<bool> = Vec::new();
        let mut j: usize = 0;
        while j < n
            invariant
                j <= n,
                row@.len() == j,
                forall|x: int| 0 <= x < j ==> !row@[x],
            decreases n - j,
        {
            row.push(false);
            j = j + 1;
        }
        neighbor_colors.push(row);
        i = i + 1;
    }
    let mut ordering: Vec<usize> = Vec::new();
    proof {
        assert forall|w: int| 0 <= w < n && !colored@[w] implies #[trigger] sat_counts@[w] == count_true(
            neighbor_colors@[w]@,
            n as nat,
        ) by {
            lemma_count_true_none(neighbor_colors@[w]@, n as nat);
        }
    }
    let mut step: usize = 0;
    while step < n
        invariant
            n > 0,
            step == ordering@.len(),
            degrees@.len() == n,
            saturation_order(n as nat, edges@, colors@, ordering@, step as int),
            dsatur_state(
                n as nat,
                edges@,
                adj@,
                colors@,
                colored@,
                ordering@,
                sat_counts@,
                neighbor_colors@,
            ),
        decreases n - step,
    {
        // Pick the uncoloured vertex of highest saturation, then degree; the
        // last such vertex wins a tie.
        let mut next: usize = n;
        let mut v: usize = 0;
        while v < n
            invariant
                v <= n,
                colored@.len() == n && sat_counts@.len() == n && degrees@.len() == n,
                next == n || (next < v && !colored@[next as int]),
                (exists|w: int| 0 <= w < v && !colored@[w]) ==> next < n,
                next < n ==> forall|w: int| 0 <= w < v && !colored@[w] ==> sat_counts@[w] <= sat_counts@[next as int],
            decreases n - v,
        {
            if !colored[v] {
                if next == n || sat_counts[v] > sat_counts[next] || (sat_counts[v]
                    == sat_counts[next] && degrees[v] >= degrees[next]) {
                    next = v;
                }
            }
            v = v + 1;
        }
        proof {
            if forall|w: int| 0 <= w < n ==> colored@[w] {
                assert forall|x: usize| x < n implies ordering@.contains(x) by {
                    assert(colored@[x as int]);
                }
                lemma_pigeon(ordering@, n as nat);
            }
        }
        assert(next < n);
        let ghost t = step as int;
        let ghost ord = ordering@;
        // The smallest colour none of its coloured neighbours has.
        let mut c: usize = 0;
        while neighbor_colors[next][c]
            invariant
                next < n,
                !colored@[next as int],
                c <= t,
                t < n,
                ord == ordering@,
                t == ord.len(),
                dsatur_state(
                    n as nat,
                    edges@,
                    adj@,
                    colors@,
                    colored@,
                    ordering@,
                    sat_counts@,
                    neighbor_colors@,
                ),
                forall|x: usize| x < c ==> neighbor_colors@[next as int]@[x as int],
            decreases t - c,
        {
            proof {
                if c == t {
                    let img = Seq::new(t as nat, |j: int| colors@[ord[j] as int]);
                    assert forall|x: usize| x < t + 1 implies img.contains(x) by {
                        assert(neighbor_colors@[next as int]@[x as int]);
                        let j = choose|j: int|
                            0 <= j < t && graph_edge(n as nat, edges@, next as int, ord[j] as int)
                                && colors@[ord[j] as int] == x;
                        assert(img[j] == x);
                    }
                    lemma_pigeon(img, (t + 1) as nat);
                }
            }
            c = c + 1;
        }
        let ghost old_colors = colors@;
        let ghost old_colored = colored@;
        let ghost old_seen = neighbor_colors@;
        let ghost old_sat = sat_counts@;
        colors.set(next, c);
        colored.set(next, true);
        ordering.push(next);
        proof {
            assert(!ord.contains(next)) by {
                assert(!old_colored[next as int]);
            }
            assert(colors@ == old_colors.update(next as int, colors@[next as int]));
            assert(ordering@.take(t) =~= ord);
            assert forall|i: int, w: int|
                #![trigger saturation(n as nat, edges@, colors@, ordering@, i, w)]
                0 <= i < t + 1 && 0 <= w < n && !ordering@.take(i).contains(w as usize) implies saturation(
                n as nat,
                edges@,
                colors@,
                ordering@,
                i,
                w,
            ) <= saturation(n as nat, edges@, colors@, ordering@, i, ordering@[i] as int) by {
                lemma_saturation_stable(n as nat, edges@, old_colors, ord, colors@, ordering@, next, i, w);
                lemma_saturation_stable(n as nat, edges@, old_colors, ord, colors@, ordering@, next, i, ordering@[i] as int);
                if i < t {
                    assert(ordering@.take(i) =~= ord.take(i));
                    assert(ordering@[i] == ord[i]);
                    assert(saturation(n as nat, edges@, old_colors, ord, i, w) <= saturation(
                        n as nat,
                        edges@,
                        old_colors,
                        ord,
                        i,
                        ord[i] as int,
                    ));
                } else {
                    assert(ordering@[i] == next);
                    assert(!old_colored[w]) by {
                        if old_colored[w] {
                            assert(ord.contains(w as usize));
                        }
                    }
                    lemma_count_true_seen(old_seen[w]@, n as nat, edges@, old_colors, ord, t, w, n as nat);
                    lemma_count_true_seen(old_seen[next as int]@, n as nat, edges@, old_colors, ord, t, next as int, n as nat);
                    assert(old_sat[w] <= old_sat[next as int]);
                }
            }

            assert(ordering@ == ord.push(next));
            assert forall|v: int| 0 <= v < n implies (colored@[v] <==> ordering@.contains(
                v as usize,
            )) by {
                if ord.contains(v as usize) {
                    let i = choose|i: int| 0 <= i < ord.len() && ord[i] == v as usize;
                    assert(ordering@[i] == v as usize);
                }
                if ordering@.contains(v as usize) && v != next {
                    let i = choose|i: int| 0 <= i < ordering@.len() && ordering@[i] == v as usize;
                    assert(ord[i] == v as usize);
                }
                if v == next {
                    assert(ordering@[t] == next);
                }
            }
            assert forall|i: int| 0 <= i < t + 1 implies greedy_at(
                n as nat,
                edges@,
                colors@,
                ordering@,
                i,
            ) by {
                if i < t {
                    assert(greedy_at(n as nat, edges@, old_colors, ord, i));
                    assert forall|j: int| 0 <= j <= i implies colors@[ordering@[j] as int]
                        == old_colors[ord[j] as int] by {
                        assert(ord.contains(ord[j]));
                    }
                    assert forall|cc: usize| cc < colors@[ordering@[i] as int] implies #[trigger]
                        taken_before(n as nat, edges@, colors@, ordering@, i, cc) by {
                        assert(taken_before(n as nat, edges@, old_colors, ord, i, cc));
                        let j = choose|j: int|
                            0 <= j < i && graph_edge(n as nat, edges@, ord[i] as int, ord[j] as int)
                                && old_colors[ord[j] as int] == cc;
                        assert(ordering@[j] == ord[j]);
                    }
                } else {
                    assert forall|j: int| 0 <= j < t implies colors@[ordering@[j] as int]
                        == old_colors[ord[j] as int] by {
                        assert(ord.contains(ord[j]));
                        assert(ord[j] != next);
                    }
                    assert forall|cc: usize| cc < colors@[ordering@[i] as int] implies #[trigger]
                        taken_before(n as nat, edges@, colors@, ordering@, i, cc) by {
                        assert(old_seen[next as int]@[cc as int]);
                        let j = choose|j: int|
                            0 <= j < t && graph_edge(n as nat, edges@, next as int, ord[j] as int)
                                && old_colors[ord[j] as int] == cc;
                        assert(ordering@[j] == ord[j]);
                    }
                    assert forall|j: int|
                        0 <= j < i && graph_edge(
                            n as nat,
                            edges@,
                            ordering@[i] as int,
                            ordering@[j] as int,
                        ) implies colors@[ordering@[j] as int] != colors@[ordering@[i] as int] by {
                        if colors@[ordering@[j] as int] == c {
                            assert(old_seen[next as int]@[c as int]);
                        }
                    }
                }
            }
        }
        // Tell the uncoloured neighbours about the new colour.
        let mut p: usize = 0;
        while p < adj[next].len()
            invariant
                next < n,
                c < n,
                t < n,
                ordering@ == ord.push(next),
                colored@.len() == n,
                colored@[next as int],
                forall|v: int| 0 <= v < n ==> (colored@[v] <==> ordering@.contains(v as usize)),
                adjacency_of(adj@, n as nat, edges@),
                p <= adj@[next as int]@.len(),
                neighbor_colors@.len() == n,
                sat_counts@.len() == n,
                forall|w: int| 0 <= w < n ==> neighbor_colors@[w]@.len() == n,
                forall|w: int, x: usize|
                    0 <= w < n && x < n ==> (#[trigger] neighbor_colors@[w]@[x as int] <==> (
                    old_seen[w]@[x as int] || (x == c && !colored@[w] && exists|q: int|
                        0 <= q < p && adj@[next as int]@[q] == w))),
                forall|w: int|
                    0 <= w < n ==> #[trigger] sat_counts@[w] == old_sat[w] + (if neighbor_colors@[w]@[
                        c as int] && !old_seen[w]@[c as int] {
                        1int
                    } else {
                        0int
                    }),
                forall|w: int| 0 <= w < n ==> old_sat[w] <= t,
                forall|w: int| 0 <= w < n ==> old_seen[w]@.len() == n,
            decreases adj@[next as int]@.len() - p,
        {
            let nb = adj[next][p];
            proof {
                assert(adj@[next as int]@.contains(nb));
            }
            if !colored[nb] {
                if !neighbor_colors[nb][c] {
                    neighbor_colors[nb].set(c, true);
                    sat_counts.set(nb, sat_counts[nb] + 1);
                }
            }
            p = p + 1;
        }
        proof {
            assert forall|w: int, x: usize|
                0 <= w < n && !colored@[w] && x < n implies (#[trigger] neighbor_colors@[w]@[x as int]
                <==> exists|j: int|
                0 <= j < t + 1 && graph_edge(n as nat, edges@, w, ordering@[j] as int)
                    && colors@[ordering@[j] as int] == x) by {
                assert(w != next);
                assert(!ord.contains(w as usize));
                assert forall|j: int| 0 <= j < t implies colors@[ordering@[j] as int]
                    == old_colors[ord[j] as int] by {
                    assert(ord.contains(ord[j]));
                }
                if graph_edge(n as nat, edges@, w, next as int) {
                    assert(adj@[next as int]@.contains(w as usize));
                }
                if exists|q: int| 0 <= q < adj@[next as int]@.len() && adj@[next as int]@[q] == w {
                    let q = choose|q: int|
                        0 <= q < adj@[next as int]@.len() && adj@[next as int]@[q] == w;
                    assert(adj@[next as int]@.contains(w as usize));
                    assert(graph_edge(n as nat, edges@, next as int, w));
                    assert(ordering@[t] == next);
                }
                if old_seen[w]@[x as int] {
                    let j = choose|j: int|
                        0 <= j < t && graph_edge(n as nat, edges@, w, ord[j] as int)
                            && old_colors[ord[j] as int] == x;
                    assert(ordering@[j] == ord[j]);
                }
                if exists|j: int|
                    0 <= j < t + 1 && graph_edge(n as nat, edges@, w, ordering@[j] as int)
                        && colors@[ordering@[j] as int] == x {
                    let j = choose|j: int|
                        0 <= j < t + 1 && graph_edge(n as nat, edges@, w, ordering@[j] as int)
                            && colors@[ordering@[j] as int] == x;
                    if j == t {
                        assert(adj@[next as int]@.contains(w as usize));
                        let q = choose|q: int|
                            0 <= q < adj@[next as int]@.len() && adj@[next as int]@[q] == w;
                    } else {
                        assert(ordering@[j] == ord[j]);
                    }
                }
            }
            assert forall|i: int, j: int| 0 <= i < j < t + 1 implies ordering@[i] != ordering@[j] by {
                if j == t {
                    assert(ord.contains(ord[i]));
                }
            }
            assert forall|w: int| 0 <= w < n && !colored@[w] implies #[trigger] sat_counts@[w] == count_true(
                neighbor_colors@[w]@,
                n as nat,
            ) by {
                assert(w != next);
                assert(!old_colored[w]);
                assert(old_sat[w] == count_true(old_seen[w]@, n as nat));
                if neighbor_colors@[w]@[c as int] && !old_seen[w]@[c as int] {
                    assert(neighbor_colors@[w]@ =~= old_seen[w]@.update(c as int, true));
                    lemma_count_true_flip(old_seen[w]@, c as int, n as nat);
                } else {
                    assert(neighbor_colors@[w]@ =~= old_seen[w]@);
                }
            }
        }
        step = step + 1;
    }
    proof {
        lemma_perm_covers(ordering@, n as nat);
        assert forall|u: int| 0 <= u < n implies colors@[u] < n by {
            assert(ordering@.contains(u as usize));
            let i = choose|i: int| 0 <= i < n && ordering@[i] == u as usize;
        }
    }
    // One more than the largest colour.
    let mut max_color: usize = 0;
    let mut v: usize = 0;
    while v < n
        invariant
            v <= n,
            colors@.len() == n,
            forall|u: int| 0 <= u < v ==> colors@[u] <= max_color,
            v > 0 ==> exists|u: int| 0 <= u < v && colors@[u] == max_color,
            forall|u: int| 0 <= u < n ==> colors@[u] < n,
        decreases n - v,
    {
        if v == 0 || colors[v] > max_color {
            max_color = colors[v];
        }
        v = v + 1;
    }
    proof {
        assert forall|i: int| 0 <= i < n implies greedy_at(
            n as nat,
            edges@,
            colors@,
            ordering@,
            i,
        ) by {}
        assert forall|u: int, w: int| #[trigger] graph_edge(
            n as nat,
            edges@,
            u,
            w,
        ) implies colors@[u] != colors@[w] by {
            assert(ordering@.contains(u as usize) && ordering@.contains(w as usize));
            let iu = choose|i: int| 0 <= i < n && ordering@[i] == u as usize;
            let iw = choose|i: int| 0 <= i < n && ordering@[i] == w as usize;
            if iu < iw {
                assert(greedy_at(n as nat, edges@, colors@, ordering@, iw));
            } else {
                assert(greedy_at(n as nat, edges@, colors@, ordering@, iu));
            }
        }
    }
    assert(n > 0 ==> exists|u: int| 0 <= u < n && colors@[u] + 1 == max_color + 1);
    (max_color + 1, colors, ordering)
}

/// DSatur colouring of the vertices `0..n`: the number of colours used and
/// the colouring. The colouring is proper, and there is an order of the
/// vertices in which each one has the smallest colour its earlier neighbours
/// leave free.
pub fn chromatic_number_heuristic(n: usize, edges: &[(usize, usize)]) -> (r: (usize, Vec<usize>))
    ensures
        is_proper_coloring(n as nat, edges@, r.1@, r.0 as nat),
        exists|ordering: Seq<usize>|
            #![trigger is_vertex_ordering(n as nat, ordering)]
            is_vertex_ordering(n as nat, ordering) && saturation_order(n as nat, edges@, r.1@, ordering, n as int)
                && forall|i: int| 0 <= i < n ==> greedy_at(n as nat, edges@, r.1@, ordering, i),
        n > 0 ==> exists|v: int| 0 <= v < n && r.1@[v] + 1 == r.0,
        n == 0 ==> r.0 == 0,
{
    let (k, colors, ordering) = dsatur_with_ordering(n, edges);
    proof {
        assert(is_vertex_ordering(n as nat, ordering@));
    }
    (k, colors)
}

} // verus!
