//! Order dimension: the algorithms' names, and the parts of their search
//! that stand on their own — the hypergraph colouring of the strict
//! alternating cycles, the lookup of SAT variables and the cycle search in
//! a linear extension's constraint graph.
use vstd::prelude::*;

verus! {

/// SAT-based dimension computation: for each `k`, encodes whether `k`
/// linear extensions can form a realizer.
pub struct SatReduction;

/// Hypergraph colouring approach: the dimension is the chromatic number of
/// the strict alternating cycle hypergraph on the critical pairs.
pub struct HypergraphColoring;

/// Graph colouring approach: colours the incompatibility graph on the
/// critical pairs exactly, and extends it while the realizer has circuits.
pub struct GraphColoring;

/// The graph colouring approach with the DSatur heuristic in place of the
/// exact colouring: an upper bound on the dimension.
pub struct GraphColoringHeuristic;

/// DSatur-guided graph colouring that checks strict alternating cycles only
/// where a vertex meets another of its colour.
pub struct Hybrid;

// ---- hypergraph colouring ---------------------------------------------------

/// Every vertex of `edge` has the colour of its first vertex.
pub open spec fn monochromatic(edge: Seq<usize>, colors: Seq<int>) -> bool {
    forall|t: int| 0 <= t < edge.len() ==> colors[#[trigger] edge[t] as int] == colors[edge[0] as int]
}

/// The hyperedges are nonempty and their vertices lie below `n`.
pub open spec fn hyperedges_ok(n: nat, hyperedges: Seq<Vec<usize>>) -> bool {
    forall|e: int|
        0 <= e < hyperedges.len() ==> #[trigger] hyperedges[e]@.len() > 0 && forall|t: int|
            0 <= t < hyperedges[e]@.len() ==> #[trigger] hyperedges[e]@[t] < n
}

/// `colors` gives each of the `n` vertices one of `0..k`, and no hyperedge
/// is monochromatic.
pub open spec fn is_hypergraph_coloring(
    n: nat,
    hyperedges: Seq<Vec<usize>>,
    colors: Seq<usize>,
    k: nat,
) -> bool {
    &&& colors.len() == n
    &&& forall|v: int| 0 <= v < n ==> colors[v] < k
    &&& forall|e: int|
        0 <= e < hyperedges.len() ==> !monochromatic(
            #[trigger] hyperedges[e]@,
            colors.map_values(|c: usize| c as int),
        )
}

/// The vertices of `edge` all lie below `bound`.
pub open spec fn assigned_below(edge: Seq<usize>, bound: int) -> bool {
    forall|t: int| 0 <= t < edge.len() ==> (#[trigger] edge[t] as int) < bound
}

/// The first `current` vertices have colours in `0..k`, the others none
/// (`-1`), and no hyperedge among the coloured vertices is monochromatic.
pub open spec fn partial_hypercoloring(
    hyperedges: Seq<Vec<usize>>,
    a: Seq<i32>,
    k: nat,
    current: int,
) -> bool {
    &&& 0 <= current <= a.len()
    &&& forall|v: int| 0 <= v < current ==> 0 <= #[trigger] a[v] < k
    &&& forall|v: int| current <= v < a.len() ==> #[trigger] a[v] == -1
    &&& forall|e: int|
        0 <= e < hyperedges.len() && assigned_below(#[trigger] hyperedges[e]@, current) ==> !monochromatic(
            hyperedges[e]@,
            a.map_values(|c: i32| c as int),
        )
}

/// `c` colours the first `current` vertices as `a` does.
pub open spec fn extends(c: Seq<usize>, a: Seq<i32>, current: int) -> bool {
    forall|v: int| 0 <= v < current ==> #[trigger] c[v] as int == a[v] as int
}

/// Agreeing on the vertices of a hyperedge, two colourings agree on whether
/// it is monochromatic.
proof fn lemma_monochromatic_agree(edge: Seq<usize>, x: Seq<int>, y: Seq<int>)
    requires
        forall|t: int| 0 <= t < edge.len() ==> x[#[trigger] edge[t] as int] == y[edge[t] as int],
        edge.len() > 0,
    ensures
        monochromatic(edge, x) == monochromatic(edge, y),
{
    assert(x[edge[0] as int] == y[edge[0] as int]);
}

/// Is hyperedge `edge` monochromatic under `a`, among vertices all coloured?
fn edge_monochromatic(edge: &Vec<usize>, a: &[i32]) -> (r: bool)
    requires
        edge@.len() > 0,
        forall|t: int| 0 <= t < edge@.len() ==> #[trigger] edge@[t] < a@.len(),
    ensures
        r == monochromatic(edge@, a@.map_values(|c: i32| c as int)),
{
    let first = a[edge[0]];
    let mut t: usize = 0;
    while t < edge.len()
        invariant
            edge@.len() > 0,
            forall|s: int| 0 <= s < edge@.len() ==> #[trigger] edge@[s] < a@.len(),
            first == a@[edge@[0] as int],
            t <= edge@.len(),
            forall|s: int| 0 <= s < t ==> a@[#[trigger] edge@[s] as int] == first,
        decreases edge@.len() - t,
    {
        if a[edge[t]] != first {
            return false;
        }
        t = t + 1;
    }
    true
}

/// Are all vertices of `edge` coloured?
fn edge_assigned(edge: &Vec<usize>, a: &[i32]) -> (r: bool)
    requires
        forall|t: int| 0 <= t < edge@.len() ==> #[trigger] edge@[t] < a@.len(),
    ensures
        r == forall|t: int| 0 <= t < edge@.len() ==> a@[#[trigger] edge@[t] as int] != -1,
{
    let mut t: usize = 0;
    while t < edge.len()
        invariant
            forall|s: int| 0 <= s < edge@.len() ==> #[trigger] edge@[s] < a@.len(),
            t <= edge@.len(),
            forall|s: int| 0 <= s < t ==> a@[#[trigger] edge@[s] as int] != -1,
        decreases edge@.len() - t,
    {
        if a[edge[t]] == -1 {
            return false;
        }
        t = t + 1;
    }
    true
}

/// Backtracking helper for hypergraph colouring: colours the vertices from
/// `current` on, checking after each choice that no hyperedge whose vertices
/// are all coloured is monochromatic.
fn coloring_backtrack(
    current_pair: usize,
    assignment: &mut [i32],
    num_pairs: usize,
    hyperedges: &[Vec<usize>],
    k: usize,
) -> (r: bool)
    requires
        num_pairs == old(assignment)@.len(),
        k <= i32::MAX,
        hyperedges_ok(num_pairs as nat, hyperedges@),
        partial_hypercoloring(hyperedges@, old(assignment)@, k as nat, current_pair as int),
    ensures
        final(assignment)@.len() == num_pairs,
        r ==> {
            &&& forall|v: int| 0 <= v < num_pairs ==> 0 <= #[trigger] final(assignment)@[v] < k
            &&& extends(
                final(assignment)@.map_values(|c: i32| c as usize),
                old(assignment)@,
                current_pair as int,
            )
            &&& is_hypergraph_coloring(
                num_pairs as nat,
                hyperedges@,
                final(assignment)@.map_values(|c: i32| c as usize),
                k as nat,
            )
        },
        !r ==> final(assignment)@ == old(assignment)@,
        !r ==> forall|c: Seq<usize>|
            extends(c, old(assignment)@, current_pair as int) ==> !is_hypergraph_coloring(
                num_pairs as nat,
                hyperedges@,
                c,
                k as nat,
            ),
    decreases num_pairs - current_pair,
{
    let ghost orig = assignment@;
    assert(orig == old(assignment)@);
    if current_pair == num_pairs {
        let mut e: usize = 0;
        while e < hyperedges.len()
            invariant
                num_pairs == assignment@.len(),
                assignment@ == orig,
                current_pair == num_pairs,
                hyperedges_ok(num_pairs as nat, hyperedges@),
                partial_hypercoloring(hyperedges@, orig, k as nat, current_pair as int),
                e <= hyperedges@.len(),
            decreases hyperedges@.len() - e,
        {
            let edge = &hyperedges[e];
            assert(hyperedges@[e as int]@.len() > 0);
            assert(assigned_below(hyperedges@[e as int]@, current_pair as int));
            if edge_monochromatic(edge, assignment) {
                return false;
            }
            e = e + 1;
        }
        proof {
            let c = assignment@.map_values(|x: i32| x as usize);
            let ci = c.map_values(|x: usize| x as int);
            let ai = assignment@.map_values(|x: i32| x as int);
            assert forall|e: int| 0 <= e < hyperedges@.len() implies !monochromatic(
                #[trigger] hyperedges@[e]@,
                ci,
            ) by {
                let edge = hyperedges@[e]@;
                assert(assigned_below(edge, current_pair as int));
                assert forall|t: int| 0 <= t < edge.len() implies ci[#[trigger] edge[t] as int]
                    == ai[edge[t] as int] by {
                    assert(0 <= orig[edge[t] as int]);
                }
                lemma_monochromatic_agree(edge, ci, ai);
            }
        }
        return true;
    }
    let mut color: usize = 0;
    while color < k
        invariant
            num_pairs == assignment@.len(),
            current_pair < num_pairs,
            k <= i32::MAX,
            hyperedges_ok(num_pairs as nat, hyperedges@),
            partial_hypercoloring(hyperedges@, orig, k as nat, current_pair as int),
            assignment@ == orig,
            orig == old(assignment)@,
            color <= k,
            forall|c: Seq<usize>|
                extends(c, orig, current_pair as int) && is_hypergraph_coloring(
                    num_pairs as nat,
                    hyperedges@,
                    c,
                    k as nat,
                ) ==> c[current_pair as int] >= color,
        decreases k - color,
    {
        assignment[current_pair] = color as i32;
        let ghost tried = assignment@;
        assert(tried == orig.update(current_pair as int, color as i32));
        let mut legal = true;
        let mut e: usize = 0;
        while e < hyperedges.len() && legal
            invariant
                num_pairs == assignment@.len(),
                orig.len() == num_pairs,
                color < k,
                k <= i32::MAX,
                assignment@ == tried,
                tried == orig.update(current_pair as int, color as i32),
                current_pair < num_pairs,
                hyperedges_ok(num_pairs as nat, hyperedges@),
                partial_hypercoloring(hyperedges@, orig, k as nat, current_pair as int),
                e <= hyperedges@.len(),
                legal ==> forall|x: int|
                    0 <= x < e && assigned_below(#[trigger] hyperedges@[x]@, current_pair + 1)
                        ==> !monochromatic(hyperedges@[x]@, tried.map_values(|c: i32| c as int)),
                !legal ==> exists|x: int|
                    0 <= x < hyperedges@.len() && assigned_below(#[trigger] hyperedges@[x]@, current_pair + 1)
                        && monochromatic(hyperedges@[x]@, tried.map_values(|c: i32| c as int)),
            decreases hyperedges@.len() - e,
        {
            let edge = &hyperedges[e];
            proof {
                assert(hyperedges@[e as int]@.len() > 0);
                // Exactly the vertices up to `current_pair` are coloured.
                assert forall|t: int| 0 <= t < edge@.len() implies (tried[#[trigger] edge@[t] as int] != -1
                    <==> edge@[t] < current_pair + 1) by {
                    let x = edge@[t];
                    assert(hyperedges@[e as int]@[t] == x);
                    assert(x < num_pairs);
                    if x < current_pair {
                        assert(0 <= orig[x as int]);
                        assert(tried[x as int] == orig[x as int]);
                    } else if x == current_pair {
                        assert(tried[x as int] == color as i32);
                    } else {
                        assert(orig[x as int] == -1);
                        assert(tried[x as int] == orig[x as int]);
                    }
                }
            }
            if edge_assigned(edge, assignment) {
                if edge_monochromatic(edge, assignment) {
                    legal = false;
                }
            }
            e = e + 1;
        }
        if legal {
            proof {
                assert forall|x: int|
                    0 <= x < hyperedges@.len() && assigned_below(#[trigger] hyperedges@[x]@, current_pair + 1)
                    implies !monochromatic(hyperedges@[x]@, tried.map_values(|c: i32| c as int)) by {}
                assert(partial_hypercoloring(hyperedges@, tried, k as nat, current_pair + 1));
            }
            if coloring_backtrack(current_pair + 1, assignment, num_pairs, hyperedges, k) {
                proof {
                    let fin = assignment@.map_values(|c: i32| c as usize);
                    assert forall|v: int| 0 <= v < current_pair implies #[trigger] fin[v] as int
                        == orig[v] as int by {
                        assert(fin[v] as int == tried[v] as int);
                        assert(0 <= orig[v]);
                    }
                    assert(extends(fin, orig, current_pair as int));
                    assert(is_hypergraph_coloring(num_pairs as nat, hyperedges@, fin, k as nat));
                }
                return true;
            }
        }
        proof {
            assert forall|c: Seq<usize>|
                extends(c, orig, current_pair as int) && is_hypergraph_coloring(
                    num_pairs as nat,
                    hyperedges@,
                    c,
                    k as nat,
                ) implies c[current_pair as int] >= color + 1 by {
                if c[current_pair as int] == color {
                    assert(extends(c, tried, current_pair + 1));
                    if !legal {
                        let x = choose|x: int|
                            0 <= x < hyperedges@.len() && assigned_below(#[trigger] hyperedges@[x]@, current_pair + 1)
                                && monochromatic(hyperedges@[x]@, tried.map_values(|c: i32| c as int));
                        let edge = hyperedges@[x]@;
                        let ci = c.map_values(|v: usize| v as int);
                        let ti = tried.map_values(|v: i32| v as int);
                        assert forall|t: int| 0 <= t < edge.len() implies ci[#[trigger] edge[t] as int]
                            == ti[edge[t] as int] by {
                            assert(edge[t] < current_pair + 1);
                        }
                        lemma_monochromatic_agree(edge, ci, ti);
                    }
                }
            }
        }
        assignment[current_pair] = -1;
        assert(assignment@ =~= orig);
        color = color + 1;
    }
    false
}

/// Colours the `num_pairs` vertices with `k` colours so that no hyperedge is
/// monochromatic, if that can be done.
pub fn hypergraph_coloring_solve(num_pairs: usize, hyperedges: &[Vec<usize>], k: usize) -> (r: Option<
    Vec<usize>,
>)
    requires
        k <= i32::MAX,
        hyperedges_ok(num_pairs as nat, hyperedges@),
    ensures
        match r {
            Some(colors) => is_hypergraph_coloring(num_pairs as nat, hyperedges@, colors@, k as nat),
            None => forall|c: Seq<usize>| !is_hypergraph_coloring(num_pairs as nat, hyperedges@, c, k as nat),
        },
{
    if num_pairs == 0 {
        proof {
            let e = Seq::<usize>::empty();
            assert forall|x: int| 0 <= x < hyperedges@.len() implies !monochromatic(
                #[trigger] hyperedges@[x]@,
                e.map_values(|c: usize| c as int),
            ) by {
                assert(hyperedges@[x]@.len() > 0);
                assert(hyperedges@[x]@[0] < num_pairs);
            }
        }
        return Some(Vec::new());
    }
    if k == 0 {
        proof {
            assert forall|c: Seq<usize>| !is_hypergraph_coloring(num_pairs as nat, hyperedges@, c, 0) by {
                if c.len() == num_pairs {
                    assert(c[0] >= 0);
                }
            }
        }
        return None;
    }
    let mut assignment: Vec<i32> = Vec::new();
    let mut i: usize = 0;
    while i < num_pairs
        invariant
            i <= num_pairs,
            assignment@.len() == i,
            forall|v: int| 0 <= v < i ==> #[trigger] assignment@[v] == -1,
        decreases num_pairs - i,
    {
        assignment.push(-1);
        i = i + 1;
    }
    proof {
        assert forall|x: int|
            0 <= x < hyperedges@.len() && assigned_below(#[trigger] hyperedges@[x]@, 0) implies !monochromatic(
            hyperedges@[x]@,
            assignment@.map_values(|c: i32| c as int),
        ) by {
            assert(hyperedges@[x]@.len() > 0);
            assert(hyperedges@[x]@[0] < 0);
        }
    }
    if coloring_backtrack(0, assignment.as_mut_slice(), num_pairs, hyperedges, k) {
        let mut out: Vec<usize> = Vec::new();
        let mut v: usize = 0;
        while v < num_pairs
            invariant
                num_pairs == assignment@.len(),
                forall|x: int| 0 <= x < num_pairs ==> 0 <= #[trigger] assignment@[x] < k,
                v <= num_pairs,
                out@ == assignment@.map_values(|c: i32| c as usize).take(v as int),
            decreases num_pairs - v,
        {
            out.push(assignment[v] as usize);
            assert(out@ =~= assignment@.map_values(|c: i32| c as usize).take(v + 1));
            v = v + 1;
        }
        assert(out@ =~= assignment@.map_values(|c: i32| c as usize));
        Some(out)
    } else {
        None
    }
}

// ---- SAT variables -----------------------------------------------------------

/// The SAT variable of orienting `pairs[i]` as listed, in extension
/// `extension_index`: variables count from 1, `n_inc` per extension.
pub open spec fn sat_var(i: int, n_inc: nat, extension_index: nat) -> int {
    i + 1 + extension_index * n_inc
}

/// Gets the SAT literal for the orientation `(a, b)` in extension
/// `extension_index`: the variable of the pair if it is listed as `(a, b)`,
/// its negation if it is listed as `(b, a)`, and `None` if it is not listed.
/// Variable `i + 1` belongs to `pairs[i]`.
pub fn get_var(a: u32, b: u32, pairs: &[(u32, u32)], n_inc: usize, extension_index: usize) -> (r: Option<i32>)
    requires
        pairs@.no_duplicates(),
        pairs@.len() + extension_index * n_inc <= i32::MAX,
    ensures
        match r {
            Some(v) => {
                ||| exists|i: int|
                    0 <= i < pairs@.len() && pairs@[i] == (a, b) && v == sat_var(i, n_inc as nat, extension_index as nat)
                ||| (!pairs@.contains((a, b)) && exists|i: int|
                    0 <= i < pairs@.len() && pairs@[i] == (b, a) && v == -sat_var(i, n_inc as nat, extension_index as nat))
            },
            None => !pairs@.contains((a, b)) && !pairs@.contains((b, a)),
        },
{
    let found = position_of(pairs, (a, b));
    match found {
        Some(i) => {
            proof {
                assert(extension_index * n_inc <= i32::MAX);
                assert(i + 1 + extension_index * n_inc <= i32::MAX);
            }
            let v = i + 1 + extension_index * n_inc;
            Some(v as i32)
        },
        None => {
            match position_of(pairs, (b, a)) {
                Some(i) => {
                    let v = i + 1 + extension_index * n_inc;
                    Some(-(v as i32))
                },
                None => None,
            }
        },
    }
}

/// The index of `p` in `pairs`, if it is listed.
fn position_of(pairs: &[(u32, u32)], p: (u32, u32)) -> (r: Option<usize>)
    ensures
        match r {
            Some(i) => i < pairs@.len() && pairs@[i as int] == p,
            None => !pairs@.contains(p),
        },
{
    let mut i: usize = 0;
    while i < pairs.len()
        invariant
            i <= pairs@.len(),
            forall|j: int| 0 <= j < i ==> pairs@[j] != p,
        decreases pairs@.len() - i,
    {
        if pairs[i].0 == p.0 && pairs[i].1 == p.1 {
            return Some(i);
        }
        i = i + 1;
    }
    None
}

} // verus!
