//! The search the hybrid dimension algorithm prunes its colouring with:
//! does a colour class hold a strict alternating cycle through a vertex?
use crate::alternating::{is_strict_alternating_cycle, strict_alternating_cycle};
use crate::cycles::adj_ok;
use crate::poset::Poset;
use vstd::prelude::*;

verus! {

/// Buffers the cycle search reuses: the path so far, the vertices on it,
/// and the first and second elements their pairs take.
pub struct CycleBufs {
    pub path: Vec<usize>,
    pub visited: Vec<bool>,
    pub seen_x: Vec<bool>,
    pub seen_y: Vec<bool>,
}

/// `c` is a strict alternating cycle from `start` whose vertices all carry
/// `color`.
pub open spec fn colored_cycle<T>(
    poset: &Poset<T>,
    pairs: Seq<(u32, u32)>,
    colors: Seq<usize>,
    colored: Seq<bool>,
    color: usize,
    start: usize,
    c: Seq<usize>,
) -> bool {
    &&& strict_alternating_cycle(poset, c, pairs)
    &&& c[0] == start
    &&& forall|t: int| 0 <= t < c.len() ==> #[trigger] c[t] < colors.len() && colored[c[t] as int] && colors[c[t] as int] == color
}

/// How many vertices are not yet visited.
pub open spec fn unvisited(s: Seq<bool>) -> nat
    decreases s.len(),
{
    if s.len() == 0 {
        0
    } else {
        unvisited(s.drop_last()) + if !s.last() {
            1nat
        } else {
            0nat
        }
    }
}

pub(crate) proof fn lemma_unvisited_mark(s: Seq<bool>, i: int)
    requires
        0 <= i < s.len(),
        !s[i],
    ensures
        unvisited(s.update(i, true)) + 1 == unvisited(s),
    decreases s.len(),
{
    let t = s.update(i, true);
    if i < s.len() - 1 {
        assert(t.drop_last() =~= s.drop_last().update(i, true));
        lemma_unvisited_mark(s.drop_last(), i);
    } else {
        assert(t.drop_last() =~= s.drop_last());
    }
}

/// The pairs' elements index the `seen` buffers.
pub open spec fn pairs_within(pairs: Seq<(u32, u32)>, n: nat) -> bool {
    forall|i: int| 0 <= i < pairs.len() ==> (#[trigger] pairs[i]).0 < n && pairs[i].1 < n
}

/// Stepping from the end of `path` to `n` is a step the search takes (`n`
/// carries `color`, is new, and so are its two elements), and it closes a
/// strict alternating cycle back to `start`.
pub open spec fn closes_cycle<T>(
    poset: &Poset<T>,
    pairs: Seq<(u32, u32)>,
    colors: Seq<usize>,
    colored: Seq<bool>,
    color: usize,
    adj: Seq<Vec<usize>>,
    visited: Seq<bool>,
    seen_x: Seq<bool>,
    seen_y: Seq<bool>,
    start: usize,
    path: Seq<usize>,
    n: usize,
) -> bool {
    &&& n != start
    &&& colored[n as int]
    &&& colors[n as int] == color
    &&& !visited[n as int]
    &&& !seen_x[pairs[n as int].0 as int]
    &&& !seen_y[pairs[n as int].1 as int]
    &&& adj[n as int]@.contains(start)
    &&& strict_alternating_cycle(poset, path.push(n), pairs)
}

/// Depth-first search, from `current` at the end of the path from `start`,
/// for a strict alternating cycle back to `start` among the vertices that
/// carry `color`, no two with the same first or second element. On a
/// miss the buffers are left as they were found.
pub fn dfs_check_cycle<T>(
    start: usize,
    current: usize,
    color: usize,
    colors: &Vec<usize>,
    colored: &Vec<bool>,
    adj: &Vec<Vec<usize>>,
    pairs: &Vec<(u32, u32)>,
    poset: &Poset<T>,
    bufs: &mut CycleBufs,
) -> (r: bool)
    requires
        adj_ok(adj@),
        colors@.len() == adj@.len(),
        colored@.len() == adj@.len(),
        pairs@.len() == adj@.len(),
        old(bufs).visited@.len() == adj@.len(),
        pairs_within(pairs@, old(bufs).seen_x@.len()),
        old(bufs).seen_y@.len() == old(bufs).seen_x@.len(),
        current < adj@.len(),
        old(bufs).path@.len() >= 1,
        old(bufs).path@[0] == start,
        old(bufs).path@.last() == current,
        forall|t: int|
            0 <= t < old(bufs).path@.len() ==> #[trigger] old(bufs).path@[t] < adj@.len() && colored@[old(bufs).path@[t] as int] && colors@[old(bufs).path@[t] as int] == color,
    ensures
        final(bufs).visited@.len() == old(bufs).visited@.len(),
        final(bufs).seen_x@.len() == old(bufs).seen_x@.len(),
        final(bufs).seen_y@.len() == old(bufs).seen_y@.len(),
        r ==> exists|c: Seq<usize>| #[trigger] colored_cycle(poset, pairs@, colors@, colored@, color, start, c),
        !r ==> final(bufs).path@ == old(bufs).path@ && final(bufs).visited@ == old(bufs).visited@ && final(bufs).seen_x@ == old(bufs).seen_x@ && final(bufs).seen_y@ == old(bufs).seen_y@,
        old(bufs).path@.len() >= 2 && adj@[current as int]@.contains(start) && strict_alternating_cycle(
            poset,
            old(bufs).path@,
            pairs@,
        ) ==> r,
        forall|n: usize|
            adj@[current as int]@.contains(n) && #[trigger] closes_cycle(
                poset,
                pairs@,
                colors@,
                colored@,
                color,
                adj@,
                old(bufs).visited@,
                old(bufs).seen_x@,
                old(bufs).seen_y@,
                start,
                old(bufs).path@,
                n,
            ) ==> r,
    decreases unvisited(old(bufs).visited@),
{
    let ghost b0 = *bufs;
    let mut idx: usize = 0;
    while idx < adj[current].len()
        invariant
            adj_ok(adj@),
            colors@.len() == adj@.len(),
            colored@.len() == adj@.len(),
            pairs@.len() == adj@.len(),
            current < adj@.len(),
            b0 == *old(bufs),
            b0.visited@.len() == adj@.len(),
            pairs_within(pairs@, b0.seen_x@.len()),
            b0.seen_y@.len() == b0.seen_x@.len(),
            b0.path@.len() >= 1,
            b0.path@[0] == start,
            b0.path@.last() == current,
            forall|t: int|
                0 <= t < b0.path@.len() ==> #[trigger] b0.path@[t] < adj@.len() && colored@[b0.path@[t] as int]
                    && colors@[b0.path@[t] as int] == color,
            bufs.path@ == b0.path@,
            bufs.visited@ == b0.visited@,
            bufs.seen_x@ == b0.seen_x@,
            bufs.seen_y@ == b0.seen_y@,
            idx <= adj@[current as int]@.len(),
            forall|t: int|
                #![trigger adj@[current as int]@[t]]
                0 <= t < idx && adj@[current as int]@[t] == start && b0.path@.len() >= 2 ==> !strict_alternating_cycle(
                    poset,
                    b0.path@,
                    pairs@,
                ),
            forall|t: int|
                0 <= t < idx ==> !#[trigger] closes_cycle(
                    poset,
                    pairs@,
                    colors@,
                    colored@,
                    color,
                    adj@,
                    b0.visited@,
                    b0.seen_x@,
                    b0.seen_y@,
                    start,
                    b0.path@,
                    adj@[current as int]@[t],
                ),
        decreases adj@[current as int]@.len() - idx,
    {
        assert(colored@[start as int] && colors@[start as int] == color) by {
            assert(b0.path@[0] < adj@.len());
        }
        let next = adj[current][idx];
        idx = idx + 1;
        if colored[next] && colors[next] == color {
            if next == start && bufs.path.len() >= 2 {
                if is_strict_alternating_cycle(bufs.path.as_slice(), pairs.as_slice(), poset) {
                    assert(colored_cycle(poset, pairs@, colors@, colored@, color, start, bufs.path@));
                    return true;
                }
            } else if !bufs.visited[next] {
                let xn = pairs[next].0 as usize;
                let yn = pairs[next].1 as usize;
                if !bufs.seen_x[xn] && !bufs.seen_y[yn] {
                    proof {
                        lemma_unvisited_mark(b0.visited@, next as int);
                    }
                    bufs.visited.set(next, true);
                    bufs.seen_x.set(xn, true);
                    bufs.seen_y.set(yn, true);
                    bufs.path.push(next);
                    let ghost b1 = *bufs;
                    let found = dfs_check_cycle(start, next, color, colors, colored, adj, pairs, poset, bufs);
                    if found {
                        return true;
                    }
                    assert(b1.path@ == b0.path@.push(next));
                    let _ = bufs.path.pop();
                    bufs.visited.set(next, false);
                    bufs.seen_x.set(xn, false);
                    bufs.seen_y.set(yn, false);
                    proof {
                        assert(bufs.path@ =~= b0.path@);
                        assert(bufs.visited@ =~= b0.visited@);
                        assert(bufs.seen_x@ =~= b0.seen_x@);
                        assert(bufs.seen_y@ =~= b0.seen_y@);
                    }
                }
            }
        }
    }
    proof {
        assert forall|n: usize|
            adj@[current as int]@.contains(n) implies !#[trigger] closes_cycle(
                poset,
                pairs@,
                colors@,
                colored@,
                color,
                adj@,
                b0.visited@,
                b0.seen_x@,
                b0.seen_y@,
                start,
                b0.path@,
                n,
            ) by {
            let t = choose|t: int| 0 <= t < adj@[current as int]@.len() && adj@[current as int]@[t] == n;
            assert(!closes_cycle(
                poset,
                pairs@,
                colors@,
                colored@,
                color,
                adj@,
                b0.visited@,
                b0.seen_x@,
                b0.seen_y@,
                start,
                b0.path@,
                adj@[current as int]@[t],
            ));
        }
        if adj@[current as int]@.contains(start) {
            let t = choose|t: int| 0 <= t < adj@[current as int]@.len() && adj@[current as int]@[t] == start;
            assert(adj@[current as int]@[t] == start);
        }
    }
    false
}

/// Whether colouring `vertex` with `color` closes a strict alternating
/// cycle of that colour through it: the buffers are reset to the path of
/// `vertex` alone, and the search runs from there. A cycle of `vertex` and
/// one other vertex of that colour, each leading to the other in `adj`, is
/// always found.
pub fn check_cycle_involving<T>(
    vertex: usize,
    color: usize,
    colors: &Vec<usize>,
    colored: &Vec<bool>,
    adj: &Vec<Vec<usize>>,
    pairs: &Vec<(u32, u32)>,
    poset: &Poset<T>,
    bufs: &mut CycleBufs,
) -> (r: bool)
    requires
        adj_ok(adj@),
        colors@.len() == adj@.len(),
        colored@.len() == adj@.len(),
        pairs@.len() == adj@.len(),
        old(bufs).visited@.len() == adj@.len(),
        pairs_within(pairs@, old(bufs).seen_x@.len()),
        old(bufs).seen_y@.len() == old(bufs).seen_x@.len(),
        vertex < adj@.len(),
        colored@[vertex as int],
        colors@[vertex as int] == color,
    ensures
        final(bufs).visited@.len() == old(bufs).visited@.len(),
        final(bufs).seen_x@.len() == old(bufs).seen_x@.len(),
        final(bufs).seen_y@.len() == old(bufs).seen_y@.len(),
        r ==> exists|c: Seq<usize>| #[trigger] colored_cycle(poset, pairs@, colors@, colored@, color, vertex, c),
        forall|j: usize|
            adj@[vertex as int]@.contains(j) && adj@[j as int]@.contains(vertex) && j != vertex && #[trigger] colored@[j as int]
                && colors@[j as int] == color && strict_alternating_cycle(poset, seq![vertex, j], pairs@) ==> r,
{
    let ghost nx = old(bufs).seen_x@.len();
    bufs.path.clear();
    bufs.path.push(vertex);
    let mut i: usize = 0;
    while i < bufs.visited.len()
        invariant
            i <= bufs.visited@.len(),
            bufs.visited@.len() == adj@.len(),
            bufs.seen_x@.len() == nx,
            bufs.seen_y@.len() == nx,
            bufs.path@ == seq![vertex],
            forall|z: int| 0 <= z < i ==> !#[trigger] bufs.visited@[z],
        decreases bufs.visited@.len() - i,
    {
        bufs.visited.set(i, false);
        i = i + 1;
    }
    bufs.visited.set(vertex, true);
    let mut i: usize = 0;
    while i < bufs.seen_x.len()
        invariant
            i <= bufs.seen_x@.len(),
            bufs.visited@.len() == adj@.len(),
            bufs.seen_x@.len() == nx,
            bufs.seen_y@.len() == nx,
            bufs.path@ == seq![vertex],
            forall|z: int| 0 <= z < bufs.visited@.len() ==> (#[trigger] bufs.visited@[z] <==> z == vertex),
            forall|z: int| 0 <= z < i ==> !#[trigger] bufs.seen_x@[z],
        decreases bufs.seen_x@.len() - i,
    {
        bufs.seen_x.set(i, false);
        i = i + 1;
    }
    assert(pairs@[vertex as int].0 < nx);
    bufs.seen_x.set(pairs[vertex].0 as usize, true);
    let mut i: usize = 0;
    while i < bufs.seen_y.len()
        invariant
            i <= bufs.seen_y@.len(),
            bufs.visited@.len() == adj@.len(),
            bufs.seen_x@.len() == nx,
            bufs.seen_y@.len() == nx,
            bufs.path@ == seq![vertex],
            forall|z: int| 0 <= z < bufs.visited@.len() ==> (#[trigger] bufs.visited@[z] <==> z == vertex),
            forall|z: int| 0 <= z < nx ==> (#[trigger] bufs.seen_x@[z] <==> z == pairs@[vertex as int].0),
            forall|z: int| 0 <= z < i ==> !#[trigger] bufs.seen_y@[z],
        decreases bufs.seen_y@.len() - i,
    {
        bufs.seen_y.set(i, false);
        i = i + 1;
    }
    assert(pairs@[vertex as int].1 < nx);
    bufs.seen_y.set(pairs[vertex].1 as usize, true);
    let ghost b0 = *bufs;
    proof {
        assert forall|j: usize|
            adj@[vertex as int]@.contains(j) && adj@[j as int]@.contains(vertex) && j != vertex && #[trigger] colored@[j as int]
                && colors@[j as int] == color && strict_alternating_cycle(poset, seq![vertex, j], pairs@) implies closes_cycle(
            poset,
            pairs@,
            colors@,
            colored@,
            color,
            adj@,
            b0.visited@,
            b0.seen_x@,
            b0.seen_y@,
            vertex,
            b0.path@,
            j,
        ) by {
            let c = seq![vertex, j];
            assert(c[0] == vertex && c[1] == j);
            assert(pairs@[c[0] as int].0 != pairs@[c[1] as int].0);
            assert(pairs@[c[0] as int].1 != pairs@[c[1] as int].1);
            assert(b0.path@.push(j) =~= c);
        }
    }
    dfs_check_cycle(vertex, vertex, color, colors, colored, adj, pairs, poset, bufs)
}

// ---- the colouring search ------------------------------------------------------------

/// No two neighbours in `adj` that are both coloured share a colour.
pub open spec fn proper_coloring(adj: Seq<Vec<usize>>, colors: Seq<usize>, colored: Seq<bool>) -> bool {
    forall|v: int, t: int|
        0 <= v < adj.len() && 0 <= t < adj[v]@.len() && colored[v] && colored[#[trigger] adj[v]@[t] as int] ==> colors[v]
            != colors[adj[v]@[t] as int]
}

/// Every edge of `adj` is also listed the other way.
pub open spec fn symmetric(adj: Seq<Vec<usize>>) -> bool {
    forall|v: int, t: int| 0 <= v < adj.len() && 0 <= t < adj[v]@.len() ==> adj[#[trigger] adj[v]@[t] as int]@.contains(v as usize)
}

/// Whether a coloured neighbour of `vertex` in `adj` has colour `c`.
fn neighbour_has(vertex: usize, c: usize, colors: &Vec<usize>, colored: &Vec<bool>, adj: &Vec<Vec<usize>>) -> (r: bool)
    requires
        adj_ok(adj@),
        vertex < adj@.len(),
        colors@.len() == adj@.len(),
        colored@.len() == adj@.len(),
    ensures
        r == exists|t: int|
            0 <= t < adj@[vertex as int]@.len() && colored@[#[trigger] adj@[vertex as int]@[t] as int] && colors@[adj@[vertex as int]@[t] as int] == c,
{
    let mut t: usize = 0;
    while t < adj[vertex].len()
        invariant
            adj_ok(adj@),
            vertex < adj@.len(),
            colors@.len() == adj@.len(),
            colored@.len() == adj@.len(),
            t <= adj@[vertex as int]@.len(),
            forall|x: int|
                0 <= x < t ==> !(colored@[#[trigger] adj@[vertex as int]@[x] as int] && colors@[adj@[vertex as int]@[x] as int] == c),
        decreases adj@[vertex as int]@.len() - t,
    {
        let nb = adj[vertex][t];
        if colored[nb] && colors[nb] == c {
            return true;
        }
        t = t + 1;
    }
    false
}

/// The nodes coloured already, and those of `ordering` from `step` on.
pub open spec fn pending(colored: Seq<bool>, ordering: Seq<usize>, step: int) -> Seq<bool> {
    Seq::new(colored.len(), |x: int| colored[x] || exists|s: int| step <= s < ordering.len() && ordering[s] == x)
}

/// `f` completes the colouring: it keeps the colours given, gives the nodes
/// of `ordering` from `step` on colours below `k`, and on all of these nodes
/// it is proper and leaves no strict alternating cycle of one colour.
pub open spec fn completes<T>(
    poset: &Poset<T>,
    pairs: Seq<(u32, u32)>,
    adj: Seq<Vec<usize>>,
    k: usize,
    ordering: Seq<usize>,
    step: int,
    colors: Seq<usize>,
    colored: Seq<bool>,
    f: Seq<usize>,
) -> bool {
    &&& f.len() == colors.len()
    &&& forall|x: int| 0 <= x < colors.len() && colored[x] ==> #[trigger] f[x] == colors[x]
    &&& forall|s: int| step <= s < ordering.len() ==> f[#[trigger] ordering[s] as int] < k
    &&& proper_coloring(adj, f, pending(colored, ordering, step))
    &&& forall|color: usize, start: usize, c: Seq<usize>|
        !#[trigger] colored_cycle(poset, pairs, f, pending(colored, ordering, step), color, start, c)
}

proof fn lemma_pending_step(colored: Seq<bool>, ordering: Seq<usize>, step: int, vertex: usize)
    requires
        0 <= step < ordering.len(),
        ordering[step] == vertex,
        vertex < colored.len(),
    ensures
        pending(colored.update(vertex as int, true), ordering, step + 1) =~= pending(colored, ordering, step),
{
    let a = pending(colored.update(vertex as int, true), ordering, step + 1);
    let b = pending(colored, ordering, step);
    assert forall|x: int| 0 <= x < colored.len() implies a[x] == b[x] by {
        if b[x] && !colored[x] && x != vertex as int {
            let s = choose|s: int| step <= s < ordering.len() && ordering[s] == x;
            assert(s != step);
        }
    }
}

/// A completion of the colouring before `vertex`, the node at `step`, got
/// its colour is one after, where `vertex` got the completion's colour.
proof fn lemma_completes_step<T>(
    poset: &Poset<T>,
    pairs: Seq<(u32, u32)>,
    adj: Seq<Vec<usize>>,
    k: usize,
    ordering: Seq<usize>,
    step: int,
    colors0: Seq<usize>,
    colored0: Seq<bool>,
    colors_c: Seq<usize>,
    f: Seq<usize>,
    vertex: usize,
)
    requires
        completes(poset, pairs, adj, k, ordering, step, colors0, colored0, f),
        0 <= step < ordering.len(),
        ordering[step] == vertex,
        vertex < colored0.len(),
        colored0.len() == colors0.len(),
        colors_c.len() == colors0.len(),
        forall|x: int| 0 <= x < colors0.len() && colored0[x] ==> #[trigger] colors_c[x] == colors0[x],
        colors_c[vertex as int] == f[vertex as int],
    ensures
        completes(poset, pairs, adj, k, ordering, step + 1, colors_c, colored0.update(vertex as int, true), f),
{
    lemma_pending_step(colored0, ordering, step, vertex);
    let colored1 = colored0.update(vertex as int, true);
    assert forall|x: int| 0 <= x < colors_c.len() && colored1[x] implies #[trigger] f[x] == colors_c[x] by {
        if x != vertex as int {
            assert(f[x] == colors0[x]);
        }
    }
}

/// The colour tried in round `idx` with hint `hint`: the hint first, then
/// the others in increasing order.
pub open spec fn color_at(idx: int, hint: int) -> int {
    if idx == 0 {
        hint
    } else if idx - 1 >= hint {
        idx
    } else {
        idx - 1
    }
}

proof fn lemma_color_at_covers(k: int, hint: int, c: int)
    requires
        0 <= hint < k,
        0 <= c < k,
    ensures
        exists|j: int| 0 <= j < k && #[trigger] color_at(j, hint) == c,
{
    if c == hint {
        assert(color_at(0, hint) == c);
    } else if c < hint {
        assert(color_at(c + 1, hint) == c);
    } else {
        assert(color_at(c, hint) == c);
    }
}

/// Colours the vertices of `ordering` from place `step` on, each with one
/// of `k` colours, trying its hint first: a colour is skipped where a
/// neighbour in the graph has it, or where it closes a strict alternating
/// cycle of one colour through the vertex. On success every vertex of
/// `ordering` is coloured, properly for the graph; on failure the vertices
/// are uncoloured again. It fails only where no colouring of those
/// vertices completes the given one properly without a strict alternating
/// cycle of one colour.
pub fn hybrid_backtrack<T>(
    step: usize,
    k: usize,
    colors: &mut Vec<usize>,
    colored: &mut Vec<bool>,
    graph_adj: &Vec<Vec<usize>>,
    hg_adj: &Vec<Vec<usize>>,
    ordering: &Vec<usize>,
    hints: &Vec<usize>,
    pairs: &Vec<(u32, u32)>,
    poset: &Poset<T>,
    bufs: &mut CycleBufs,
) -> (r: bool)
    requires
        adj_ok(graph_adj@),
        symmetric(graph_adj@),
        forall|v: int, t: int| 0 <= v < graph_adj@.len() && 0 <= t < graph_adj@[v]@.len() ==> #[trigger] graph_adj@[v]@[t] != v,
        adj_ok(hg_adj@),
        hg_adj@.len() == graph_adj@.len(),
        old(colors)@.len() == graph_adj@.len(),
        old(colored)@.len() == graph_adj@.len(),
        hints@.len() == graph_adj@.len(),
        pairs@.len() == graph_adj@.len(),
        old(bufs).visited@.len() == graph_adj@.len(),
        pairs_within(pairs@, old(bufs).seen_x@.len()),
        old(bufs).seen_y@.len() == old(bufs).seen_x@.len(),
        step <= ordering@.len(),
        forall|s: int| 0 <= s < ordering@.len() ==> #[trigger] ordering@[s] < graph_adj@.len(),
        forall|s: int, u: int| 0 <= s < u < ordering@.len() ==> ordering@[s] != ordering@[u],
        forall|s: int| step <= s < ordering@.len() ==> !old(colored)@[#[trigger] ordering@[s] as int],
        proper_coloring(graph_adj@, old(colors)@, old(colored)@),
    ensures
        final(colors)@.len() == graph_adj@.len(),
        final(colored)@.len() == graph_adj@.len(),
        final(bufs).visited@.len() == graph_adj@.len(),
        final(bufs).seen_x@.len() == old(bufs).seen_x@.len(),
        final(bufs).seen_y@.len() == old(bufs).seen_x@.len(),
        forall|x: int| 0 <= x < graph_adj@.len() && old(colored)@[x] ==> #[trigger] final(colors)@[x] == old(colors)@[x],
        r ==> {
            &&& proper_coloring(graph_adj@, final(colors)@, final(colored)@)
            &&& forall|s: int| step <= s < ordering@.len() ==> #[trigger] final(colored)@[ordering@[s] as int] && final(colors)@[ordering@[s] as int] < k
            &&& forall|x: int| 0 <= x < graph_adj@.len() && old(colored)@[x] ==> #[trigger] final(colored)@[x]
        },
        !r ==> final(colored)@ == old(colored)@,
        (exists|f: Seq<usize>|
            #[trigger] completes(poset, pairs@, graph_adj@, k, ordering@, step as int, old(colors)@, old(colored)@, f)) ==> r,
    decreases ordering@.len() - step,
{
    if step == ordering.len() {
        return true;
    }
    let vertex = ordering[step];
    let hint = if hints[vertex] < k {
        hints[vertex]
    } else {
        0
    };
    let ghost colors0 = colors@;
    let ghost colored0 = colored@;
    let n_ord = ordering.len();
    let n_nodes = graph_adj.len();
    let ghost ext = exists|f: Seq<usize>|
        #[trigger] completes(poset, pairs@, graph_adj@, k, ordering@, step as int, colors0, colored0, f);
    let ghost f = choose|f: Seq<usize>|
        #[trigger] completes(poset, pairs@, graph_adj@, k, ordering@, step as int, colors0, colored0, f);
    let mut color_idx: usize = 0;
    while color_idx < k
        invariant
            adj_ok(graph_adj@),
            symmetric(graph_adj@),
            forall|v: int, t: int| 0 <= v < graph_adj@.len() && 0 <= t < graph_adj@[v]@.len() ==> #[trigger] graph_adj@[v]@[t] != v,
            adj_ok(hg_adj@),
            hg_adj@.len() == graph_adj@.len(),
            n_ord == ordering@.len(),
            n_nodes == graph_adj@.len(),
            colors0.len() == graph_adj@.len(),
            colored0.len() == graph_adj@.len(),
            colors@.len() == graph_adj@.len(),
            colored@.len() == graph_adj@.len(),
            hints@.len() == graph_adj@.len(),
            pairs@.len() == graph_adj@.len(),
            bufs.visited@.len() == graph_adj@.len(),
            pairs_within(pairs@, bufs.seen_x@.len()),
            bufs.seen_x@.len() == old(bufs).seen_x@.len(),
            bufs.seen_y@.len() == bufs.seen_x@.len(),
            step < ordering@.len(),
            vertex == ordering@[step as int],
            vertex < graph_adj@.len(),
            colors0 == old(colors)@,
            colored0 == old(colored)@,
            forall|s: int| 0 <= s < ordering@.len() ==> #[trigger] ordering@[s] < graph_adj@.len(),
            forall|s: int, u: int| 0 <= s < u < ordering@.len() ==> ordering@[s] != ordering@[u],
            forall|s: int| step <= s < ordering@.len() ==> !colored0[#[trigger] ordering@[s] as int],
            proper_coloring(graph_adj@, colors0, colored0),
            colored@ == colored0,
            forall|x: int| 0 <= x < graph_adj@.len() && colored0[x] ==> #[trigger] colors@[x] == colors0[x],
            hint < k || k == 0,
            ext ==> completes(poset, pairs@, graph_adj@, k, ordering@, step as int, colors0, colored0, f),
            color_idx <= k,
            ext ==> forall|j: int| 0 <= j < color_idx ==> #[trigger] color_at(j, hint as int) != f[vertex as int],
        decreases k - color_idx,
    {
        let ghost idx0 = color_idx as int;
        let c = if color_idx == 0 {
            hint
        } else {
            let mut c = color_idx - 1;
            if c >= hint {
                c = c + 1;
            }
            c
        };
        assert(c < k);
        assert(c == color_at(idx0, hint as int));
        color_idx = color_idx + 1;
        if !neighbour_has(vertex, c, colors, colored, graph_adj) {
            let ghost colors1 = colors@;
            colors.set(vertex, c);
            colored.set(vertex, true);
            proof {
                lemma_color_vertex(graph_adj@, colors0, colors1, colored0, vertex, c);
                assert(colors@ == colors1.update(vertex as int, c));
                assert(colored@ == colored0.update(vertex as int, true));
            }
            let ghost colors_c = colors@;
            let ghost colored_c = colored@;
            let needs_check = neighbour_has(vertex, c, colors, colored, hg_adj);
            let cycle_found = if needs_check {
                check_cycle_involving(vertex, c, colors, colored, hg_adj, pairs, poset, bufs)
            } else {
                false
            };
            proof {
                assert forall|x: int| step + 1 <= x < ordering@.len() implies !colored@[#[trigger] ordering@[x] as int] by {
                    assert(ordering@[x] != ordering@[step as int]);
                }
            }
            if !cycle_found {
                let ghost colors2 = colors@;
                let ghost colored2 = colored@;
                if hybrid_backtrack(step + 1, k, colors, colored, graph_adj, hg_adj, ordering, hints, pairs, poset, bufs) {
                    proof {
                        assert(colored2[vertex as int]);
                        assert(colors@[vertex as int] == colors2[vertex as int]);
                        assert(colors2[vertex as int] == c);
                        assert forall|x: int| 0 <= x < graph_adj@.len() && colored0[x] implies #[trigger] colors@[x] == colors0[x] by {
                            assert(colored2[x]);
                            assert(x != vertex as int);
                        }
                        assert forall|x: int| 0 <= x < graph_adj@.len() && colored0[x] implies #[trigger] colored@[x] by {
                            assert(colored2[x]);
                        }
                        assert forall|x: int| step <= x < ordering@.len() implies #[trigger] colored@[ordering@[x] as int]
                            && colors@[ordering@[x] as int] < k by {
                            if x == step {
                                assert(ordering@[x] == vertex);
                                assert(c < k);
                                assert(colors@[ordering@[x] as int] == c);
                            } else {
                                assert(step + 1 <= x);
                                assert(colored@[ordering@[x] as int]);
                                assert(colors@[ordering@[x] as int] < k);
                            }
                        }
                    }
                    return true;
                }
            }
            proof {
                if ext && c == f[vertex as int] {
                    assert(pending(colored0, ordering@, step as int)[vertex as int]);
                    if cycle_found {
                        let (cc, st, cyc) = choose|cc: usize, st: usize, cyc: Seq<usize>|
                            cc == c && st == vertex && #[trigger] colored_cycle(poset, pairs@, colors_c, colored_c, cc, st, cyc);
                        assert(colored_cycle(poset, pairs@, f, pending(colored0, ordering@, step as int), c, vertex, cyc)) by {
                            assert forall|t: int| 0 <= t < cyc.len() implies #[trigger] cyc[t] < f.len() && pending(
                                colored0,
                                ordering@,
                                step as int,
                            )[cyc[t] as int] && f[cyc[t] as int] == c by {
                                assert(colored_c[cyc[t] as int]);
                                if cyc[t] != vertex {
                                    assert(colored0[cyc[t] as int]);
                                    assert(f[cyc[t] as int] == colors0[cyc[t] as int]);
                                }
                            }
                        }
                    } else {
                        lemma_completes_step(
                            poset,
                            pairs@,
                            graph_adj@,
                            k,
                            ordering@,
                            step as int,
                            colors0,
                            colored0,
                            colors_c,
                            f,
                            vertex,
                        );
                        assert(completes(poset, pairs@, graph_adj@, k, ordering@, step + 1, colors_c, colored_c, f));
                    }
                }
            }
            colored.set(vertex, false);
            proof {
                assert(colored@ =~= colored0);
            }
        } else {
            proof {
                if ext && c == f[vertex as int] {
                    let t = choose|t: int|
                        0 <= t < graph_adj@[vertex as int]@.len() && colored@[#[trigger] graph_adj@[vertex as int]@[t] as int]
                            && colors@[graph_adj@[vertex as int]@[t] as int] == c;
                    let nb = graph_adj@[vertex as int]@[t] as int;
                    assert(colored0[nb]);
                    assert(f[nb] == colors0[nb]);
                    assert(pending(colored0, ordering@, step as int)[vertex as int]);
                    assert(pending(colored0, ordering@, step as int)[nb]);
                }
            }
        }
        proof {
            if ext {
                assert forall|j: int| 0 <= j < color_idx implies #[trigger] color_at(j, hint as int) != f[vertex as int] by {
                    if j == idx0 {
                        assert(color_at(j, hint as int) == c);
                    }
                }
            }
        }
    }
    proof {
        if ext {
            lemma_color_at_covers(k as int, hint as int, f[vertex as int] as int);
            let j = choose|j: int| 0 <= j < k && #[trigger] color_at(j, hint as int) == f[vertex as int];
        }
    }
    false
}

/// Colouring `vertex` with a colour none of its coloured neighbours has
/// keeps a proper colouring proper.
proof fn lemma_color_vertex(
    adj: Seq<Vec<usize>>,
    colors0: Seq<usize>,
    colors1: Seq<usize>,
    colored0: Seq<bool>,
    vertex: usize,
    c: usize,
)
    requires
        adj.len() <= usize::MAX,
        adj_ok(adj),
        symmetric(adj),
        forall|v: int, t: int| 0 <= v < adj.len() && 0 <= t < adj[v]@.len() ==> #[trigger] adj[v]@[t] != v,
        colors0.len() == adj.len(),
        colors1.len() == adj.len(),
        colored0.len() == adj.len(),
        vertex < adj.len(),
        !colored0[vertex as int],
        proper_coloring(adj, colors0, colored0),
        forall|x: int| 0 <= x < adj.len() && colored0[x] ==> #[trigger] colors1[x] == colors0[x],
        forall|t: int|
            0 <= t < adj[vertex as int]@.len() ==> !(colored0[#[trigger] adj[vertex as int]@[t] as int] && colors1[adj[vertex as int]@[t] as int] == c),
    ensures
        proper_coloring(adj, colors1.update(vertex as int, c), colored0.update(vertex as int, true)),
{
    let colors2 = colors1.update(vertex as int, c);
    let colored2 = colored0.update(vertex as int, true);
    assert forall|v: int, t: int|
        0 <= v < adj.len() && 0 <= t < adj[v]@.len() && colored2[v] && colored2[#[trigger] adj[v]@[t] as int] implies colors2[v]
        != colors2[adj[v]@[t] as int] by {
        let w = adj[v]@[t] as int;
        assert(w < adj.len());
        if v == vertex as int {
            assert(w != v);
            assert(colored2[w] == colored0[w]);
            assert(colors2[w] == colors1[w]);
        } else if w == vertex as int {
            assert(adj[w]@.contains(v as usize));
            let t2 = choose|t2: int| 0 <= t2 < adj[w]@.len() && adj[w]@[t2] == v as usize;
            assert(!(colored0[adj[vertex as int]@[t2] as int] && colors1[adj[vertex as int]@[t2] as int] == c));
            assert(colored2[v] == colored0[v]);
            assert(colors2[v] == colors1[v]);
        } else {
            assert(colored2[v] == colored0[v] && colored2[w] == colored0[w]);
            assert(colors2[v] == colors0[v] && colors2[w] == colors0[w]);
        }
    }
}

/// The colour `c` differs from that of the coloured `t`-th neighbour of
/// `vertex`, as far as the colours before `vertex` was coloured say.
pub open spec fn colored1_neighbour(adj: Seq<Vec<usize>>, colors: Seq<usize>, colored: Seq<bool>, vertex: usize, c: usize, t: int) -> bool {
    0 <= t < adj[vertex as int]@.len() ==> !(colored[adj[vertex as int]@[t] as int] && colors[adj[vertex as int]@[t] as int] == c)
}

} // verus!
