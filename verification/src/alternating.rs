//! Alternating cycles among pairs of a poset, the structure the dimension
//! algorithms colour: which pairs follow which, which cycles are strict, and
//! which pairs cannot share a linear extension.
use crate::cycles::{adj_ok, black_acyclic, black_closed, edge_at, find_cycle_dfs, is_cycle};
use crate::poset::Poset;
use vstd::prelude::*;

verus! {

/// The successor of place `i` on a cycle of `s` places.
pub open spec fn succ(i: int, s: int) -> int {
    (i + 1) % s
}

/// `cycle` lists at least two pairs, and the first element of each pair is
/// below the second element of exactly the pair that follows it.
pub open spec fn strict_cycle<T>(poset: &Poset<T>, cycle: Seq<usize>, pairs: Seq<(u32, u32)>) -> bool {
    &&& cycle.len() >= 2
    &&& forall|i: int, j: int|
        0 <= i < cycle.len() && 0 <= j < cycle.len() ==> (poset.leq(
            pairs[#[trigger] cycle[i] as int].0 as int,
            pairs[#[trigger] cycle[j] as int].1 as int,
        ) == (j == succ(i, cycle.len() as int)))
}

/// Checks whether a cycle of pairs is a strict alternating cycle: for all
/// places `i` and `j`, the first element at `i` is below the second at `j`
/// exactly when `j` follows `i`.
pub fn is_strict_cycle<T>(cycle: &[usize], critical_pairs: &[(u32, u32)], poset: &Poset<T>) -> (r: bool)
    requires
        forall|i: int| 0 <= i < cycle@.len() ==> #[trigger] cycle@[i] < critical_pairs@.len(),
    ensures
        r == strict_cycle(poset, cycle@, critical_pairs@),
{
    let s = cycle.len();
    if s < 2 {
        return false;
    }
    let mut i: usize = 0;
    while i < s
        invariant
            s == cycle@.len(),
            s >= 2,
            i <= s,
            forall|x: int| 0 <= x < s ==> #[trigger] cycle@[x] < critical_pairs@.len(),
            forall|a: int, b: int|
                0 <= a < i && 0 <= b < s ==> (poset.leq(
                    critical_pairs@[#[trigger] cycle@[a] as int].0 as int,
                    critical_pairs@[#[trigger] cycle@[b] as int].1 as int,
                ) == (b == succ(a, s as int))),
        decreases s - i,
    {
        let x_k = critical_pairs[cycle[i]].0;
        let target_j = (i + 1) % s;
        let mut j: usize = 0;
        while j < s
            invariant
                s == cycle@.len(),
                s >= 2,
                i < s,
                j <= s,
                target_j == succ(i as int, s as int),
                x_k == critical_pairs@[cycle@[i as int] as int].0,
                forall|x: int| 0 <= x < s ==> #[trigger] cycle@[x] < critical_pairs@.len(),
                forall|a: int, b: int|
                    0 <= a < i && 0 <= b < s ==> (poset.leq(
                        critical_pairs@[#[trigger] cycle@[a] as int].0 as int,
                        critical_pairs@[#[trigger] cycle@[b] as int].1 as int,
                    ) == (b == succ(a, s as int))),
                forall|b: int|
                    0 <= b < j ==> (poset.leq(x_k as int, critical_pairs@[#[trigger] cycle@[b] as int].1 as int) == (b
                        == target_j)),
            decreases s - j,
        {
            let y_l = critical_pairs[cycle[j]].1;
            if poset.is_leq(x_k, y_l) != (j == target_j) {
                assert(!(poset.leq(
                    critical_pairs@[cycle@[i as int] as int].0 as int,
                    critical_pairs@[cycle@[j as int] as int].1 as int,
                ) == (j == succ(i as int, s as int))));
                return false;
            }
            j = j + 1;
        }
        i = i + 1;
    }
    true
}

/// `cycle` lists at least two pairs, no two with the same first element or
/// the same second element, and the first element of each pair is below the
/// second of no pair but the one that follows it.
pub open spec fn strict_alternating_cycle<T>(poset: &Poset<T>, cycle: Seq<usize>, pairs: Seq<(u32, u32)>) -> bool {
    &&& cycle.len() >= 2
    &&& forall|i: int, j: int|
        0 <= i < j < cycle.len() ==> pairs[#[trigger] cycle[i] as int].0 != pairs[#[trigger] cycle[j] as int].0
    &&& forall|i: int, j: int|
        0 <= i < j < cycle.len() ==> pairs[#[trigger] cycle[i] as int].1 != pairs[#[trigger] cycle[j] as int].1
    &&& forall|i: int, j: int|
        0 <= i < cycle.len() && 0 <= j < cycle.len() && j != succ(i, cycle.len() as int) ==> !poset.leq(
            pairs[#[trigger] cycle[i] as int].0 as int,
            pairs[#[trigger] cycle[j] as int].1 as int,
        )
}

/// Checks whether a cycle of pairs is a strict alternating cycle: the first
/// elements are distinct, the second elements are distinct, and the first
/// element at each place is below the second at no place but the next.
pub fn is_strict_alternating_cycle<T>(cycle: &[usize], pairs: &[(u32, u32)], poset: &Poset<T>) -> (r: bool)
    requires
        forall|i: int| 0 <= i < cycle@.len() ==> #[trigger] cycle@[i] < pairs@.len(),
    ensures
        r == strict_alternating_cycle(poset, cycle@, pairs@),
{
    let s = cycle.len();
    if s < 2 {
        return false;
    }
    // The first elements are distinct.
    let mut i: usize = 0;
    while i < s
        invariant
            s == cycle@.len(),
            i <= s,
            forall|x: int| 0 <= x < s ==> #[trigger] cycle@[x] < pairs@.len(),
            forall|a: int, b: int|
                0 <= a < b < i ==> pairs@[#[trigger] cycle@[a] as int].0 != pairs@[#[trigger] cycle@[b] as int].0,
        decreases s - i,
    {
        let mut j: usize = 0;
        while j < i
            invariant
                s == cycle@.len(),
                i < s,
                j <= i,
                forall|x: int| 0 <= x < s ==> #[trigger] cycle@[x] < pairs@.len(),
                forall|a: int, b: int|
                    0 <= a < b < i ==> pairs@[#[trigger] cycle@[a] as int].0 != pairs@[#[trigger] cycle@[b] as int].0,
                forall|a: int| 0 <= a < j ==> pairs@[#[trigger] cycle@[a] as int].0 != pairs@[cycle@[i as int] as int].0,
            decreases i - j,
        {
            if pairs[cycle[j]].0 == pairs[cycle[i]].0 {
                return false;
            }
            j = j + 1;
        }
        i = i + 1;
    }
    // The second elements are distinct.
    let mut i: usize = 0;
    while i < s
        invariant
            s == cycle@.len(),
            i <= s,
            forall|x: int| 0 <= x < s ==> #[trigger] cycle@[x] < pairs@.len(),
            forall|a: int, b: int|
                0 <= a < b < s ==> pairs@[#[trigger] cycle@[a] as int].0 != pairs@[#[trigger] cycle@[b] as int].0,
            forall|a: int, b: int|
                0 <= a < b < i ==> pairs@[#[trigger] cycle@[a] as int].1 != pairs@[#[trigger] cycle@[b] as int].1,
        decreases s - i,
    {
        let mut j: usize = 0;
        while j < i
            invariant
                s == cycle@.len(),
                i < s,
                j <= i,
                forall|x: int| 0 <= x < s ==> #[trigger] cycle@[x] < pairs@.len(),
                forall|a: int, b: int|
                    0 <= a < b < s ==> pairs@[#[trigger] cycle@[a] as int].0 != pairs@[#[trigger] cycle@[b] as int].0,
                forall|a: int, b: int|
                    0 <= a < b < i ==> pairs@[#[trigger] cycle@[a] as int].1 != pairs@[#[trigger] cycle@[b] as int].1,
                forall|a: int| 0 <= a < j ==> pairs@[#[trigger] cycle@[a] as int].1 != pairs@[cycle@[i as int] as int].1,
            decreases i - j,
        {
            if pairs[cycle[j]].1 == pairs[cycle[i]].1 {
                return false;
            }
            j = j + 1;
        }
        i = i + 1;
    }
    // Strictness: no first element is below a second element but the next.
    let mut i: usize = 0;
    while i < s
        invariant
            s == cycle@.len(),
            s >= 2,
            i <= s,
            forall|x: int| 0 <= x < s ==> #[trigger] cycle@[x] < pairs@.len(),
            forall|a: int, b: int|
                0 <= a < b < s ==> pairs@[#[trigger] cycle@[a] as int].0 != pairs@[#[trigger] cycle@[b] as int].0,
            forall|a: int, b: int|
                0 <= a < b < s ==> pairs@[#[trigger] cycle@[a] as int].1 != pairs@[#[trigger] cycle@[b] as int].1,
            forall|a: int, b: int|
                0 <= a < i && 0 <= b < s && b != succ(a, s as int) ==> !poset.leq(
                    pairs@[#[trigger] cycle@[a] as int].0 as int,
                    pairs@[#[trigger] cycle@[b] as int].1 as int,
                ),
        decreases s - i,
    {
        let a_i = pairs[cycle[i]].0;
        let succ_i = (i + 1) % s;
        let mut j: usize = 0;
        while j < s
            invariant
                s == cycle@.len(),
                s >= 2,
                i < s,
                j <= s,
                succ_i == succ(i as int, s as int),
                a_i == pairs@[cycle@[i as int] as int].0,
                forall|x: int| 0 <= x < s ==> #[trigger] cycle@[x] < pairs@.len(),
                forall|a: int, b: int|
                    0 <= a < b < s ==> pairs@[#[trigger] cycle@[a] as int].0 != pairs@[#[trigger] cycle@[b] as int].0,
                forall|a: int, b: int|
                    0 <= a < b < s ==> pairs@[#[trigger] cycle@[a] as int].1 != pairs@[#[trigger] cycle@[b] as int].1,
                forall|a: int, b: int|
                    0 <= a < i && 0 <= b < s && b != succ(a, s as int) ==> !poset.leq(
                        pairs@[#[trigger] cycle@[a] as int].0 as int,
                        pairs@[#[trigger] cycle@[b] as int].1 as int,
                    ),
                forall|b: int| 0 <= b < j && b != succ_i ==> !poset.leq(a_i as int, pairs@[#[trigger] cycle@[b] as int].1 as int),
            decreases s - j,
        {
            if j != succ_i {
                let b_j = pairs[cycle[j]].1;
                if poset.is_leq(a_i, b_j) {
                    assert(poset.leq(pairs@[cycle@[i as int] as int].0 as int, pairs@[cycle@[j as int] as int].1 as int));
                    return false;
                }
            }
            j = j + 1;
        }
        i = i + 1;
    }
    true
}

// ---- which pairs follow which ---------------------------------------------------

/// The pairs `j` among the first `k` that pair `i` leads to: `j != i`, and
/// the first element of pair `i` is below the second element of pair `j`.
pub open spec fn alternating_row<T>(poset: &Poset<T>, pairs: Seq<(u32, u32)>, i: int, k: nat) -> Seq<usize>
    decreases k,
{
    if k == 0 {
        Seq::empty()
    } else {
        let before = alternating_row(poset, pairs, i, (k - 1) as nat);
        if k - 1 != i && poset.leq(pairs[i].0 as int, pairs[k - 1].1 as int) {
            before.push((k - 1) as usize)
        } else {
            before
        }
    }
}

/// The directed adjacency of alternating cycles among `pairs`: an edge from
/// pair `i` to pair `j != i` when the first element of `i` is below the
/// second element of `j`, each row in increasing order.
pub fn build_alternating_cycle_adj<T>(pairs: &[(u32, u32)], poset: &Poset<T>) -> (r: Vec<Vec<usize>>)
    ensures
        r@.len() == pairs@.len(),
        forall|i: int| 0 <= i < pairs@.len() ==> (#[trigger] r@[i])@ == alternating_row(poset, pairs@, i, pairs@.len()),
{
    let n = pairs.len();
    let mut adj: Vec<Vec<usize>> = Vec::new();
    let mut i: usize = 0;
    while i < n
        invariant
            n == pairs@.len(),
            i <= n,
            adj@.len() == i,
            forall|x: int| 0 <= x < i ==> (#[trigger] adj@[x])@ == alternating_row(poset, pairs@, x, n as nat),
        decreases n - i,
    {
        let a_i = pairs[i].0;
        let mut row: Vec<usize> = Vec::new();
        let mut j: usize = 0;
        while j < n
            invariant
                n == pairs@.len(),
                i < n,
                j <= n,
                a_i == pairs@[i as int].0,
                row@ == alternating_row(poset, pairs@, i as int, j as nat),
            decreases n - j,
        {
            assert(((j + 1) - 1) as usize == j);
            if j != i && poset.is_leq(a_i, pairs[j].1) {
                row.push(j);
            }
            j = j + 1;
        }
        adj.push(row);
        i = i + 1;
    }
    adj
}

// ---- which pairs cannot share a linear extension ------------------------------

/// `p` is a listed pair other than pair `i` that pair `i` leads to in the
/// consistency digraph: its first element is below the first of `i`, and
/// the second of `i` is below its second.
pub open spec fn successor_of<T>(poset: &Poset<T>, pairs: Seq<(u32, u32)>, i: int, p: (u32, u32)) -> bool {
    &&& pairs.contains(p)
    &&& p != pairs[i]
    &&& poset.leq(p.0 as int, pairs[i].0 as int)
    &&& poset.leq(pairs[i].1 as int, p.1 as int)
}

/// Pairs `i` and `j` are incompatible: they are opposite, or some
/// successor of `i` has its reverse among the successors of `j`.
pub open spec fn incompatible<T>(poset: &Poset<T>, pairs: Seq<(u32, u32)>, i: int, j: int) -> bool {
    ||| (pairs[i].0 == pairs[j].1 && pairs[i].1 == pairs[j].0)
    ||| exists|p: (u32, u32)| #[trigger] successor_of(poset, pairs, i, p) && successor_of(poset, pairs, j, (p.1, p.0))
}

/// The edges `(i, j)`, `i < j < k`, of the incompatibility graph, by `j`.
pub open spec fn incompatible_row<T>(poset: &Poset<T>, pairs: Seq<(u32, u32)>, i: int, k: nat) -> Seq<(usize, usize)>
    decreases k,
{
    if k == 0 || k <= i + 1 {
        Seq::empty()
    } else {
        let before = incompatible_row(poset, pairs, i, (k - 1) as nat);
        if incompatible(poset, pairs, i, k - 1) {
            before.push((i as usize, (k - 1) as usize))
        } else {
            before
        }
    }
}

/// The edges of the incompatibility graph whose smaller end is below `k`,
/// by smaller end and then by larger end.
pub open spec fn incompatible_upto<T>(poset: &Poset<T>, pairs: Seq<(u32, u32)>, k: nat) -> Seq<(usize, usize)>
    decreases k,
{
    if k == 0 {
        Seq::empty()
    } else {
        incompatible_upto(poset, pairs, (k - 1) as nat) + incompatible_row(poset, pairs, k - 1, pairs.len())
    }
}

/// Builds the incompatibility graph on the pairs: an edge `(i, j)`, `i < j`,
/// for each two pairs that are opposite or have successors in the
/// consistency digraph that are each other's reverse.
pub fn build_incompatibility_graph<T>(critical_pairs: &[(u32, u32)], poset: &Poset<T>) -> (r: Vec<(usize, usize)>)
    ensures
        r@ == incompatible_upto(poset, critical_pairs@, critical_pairs@.len()),
{
    let n = critical_pairs.len();
    let ghost ps = critical_pairs@;
    // succ[i][k]: pair k is a successor of pair i.
    let mut succ: Vec<Vec<bool>> = Vec::new();
    let mut i: usize = 0;
    while i < n
        invariant
            n == ps.len(),
            ps == critical_pairs@,
            i <= n,
            succ@.len() == i,
            forall|a: int, k: int|
                0 <= a < i && 0 <= k < n ==> #[trigger] succ@[a]@[k] == successor_of(poset, ps, a, ps[k]),
            forall|a: int| 0 <= a < i ==> (#[trigger] succ@[a])@.len() == n,
        decreases n - i,
    {
        let (x, y) = critical_pairs[i];
        let mut row: Vec<bool> = Vec::new();
        let mut k: usize = 0;
        while k < n
            invariant
                n == ps.len(),
                ps == critical_pairs@,
                i < n,
                (x, y) == ps[i as int],
                k <= n,
                row@.len() == k,
                forall|c: int| 0 <= c < k ==> #[trigger] row@[c] == successor_of(poset, ps, i as int, ps[c]),
            decreases n - k,
        {
            let (z, w) = critical_pairs[k];
            proof {
                assert(ps.contains(ps[k as int]));
            }
            let is_succ = !(z == x && w == y) && poset.is_leq(z, x) && poset.is_leq(y, w);
            row.push(is_succ);
            k = k + 1;
        }
        succ.push(row);
        i = i + 1;
    }
    // opp[k]: where the reverse of pair k is listed.
    let mut opp: Vec<Option<usize>> = Vec::new();
    let mut k: usize = 0;
    while k < n
        invariant
            n == ps.len(),
            ps == critical_pairs@,
            k <= n,
            opp@.len() == k,
            forall|c: int|
                0 <= c < k ==> match #[trigger] opp@[c] {
                    Some(l) => l < n && ps[l as int] == (ps[c].1, ps[c].0),
                    None => !ps.contains((ps[c].1, ps[c].0)),
                },
        decreases n - k,
    {
        let (z, w) = critical_pairs[k];
        opp.push(index_of_pair(critical_pairs, (w, z)));
        k = k + 1;
    }
    let mut edges: Vec<(usize, usize)> = Vec::new();
    let mut i: usize = 0;
    while i < n
        invariant
            n == ps.len(),
            ps == critical_pairs@,
            i <= n,
            succ@.len() == n,
            opp@.len() == n,
            forall|a: int, k: int|
                0 <= a < n && 0 <= k < n ==> #[trigger] succ@[a]@[k] == successor_of(poset, ps, a, ps[k]),
            forall|a: int| 0 <= a < n ==> (#[trigger] succ@[a])@.len() == n,
            forall|c: int|
                0 <= c < n ==> match #[trigger] opp@[c] {
                    Some(l) => l < n && ps[l as int] == (ps[c].1, ps[c].0),
                    None => !ps.contains((ps[c].1, ps[c].0)),
                },
            edges@ == incompatible_upto(poset, ps, i as nat),
        decreases n - i,
    {
        let ghost before_row = edges@;
        let mut j: usize = i + 1;
        while j < n
            invariant
                n == ps.len(),
                ps == critical_pairs@,
                i < n,
                i + 1 <= j <= n,
                succ@.len() == n,
                opp@.len() == n,
                forall|a: int, k: int|
                    0 <= a < n && 0 <= k < n ==> #[trigger] succ@[a]@[k] == successor_of(poset, ps, a, ps[k]),
                forall|a: int| 0 <= a < n ==> (#[trigger] succ@[a])@.len() == n,
                forall|c: int|
                    0 <= c < n ==> match #[trigger] opp@[c] {
                        Some(l) => l < n && ps[l as int] == (ps[c].1, ps[c].0),
                        None => !ps.contains((ps[c].1, ps[c].0)),
                    },
                before_row == incompatible_upto(poset, ps, i as nat),
                edges@ == before_row + incompatible_row(poset, ps, i as int, j as nat),
            decreases n - j,
        {
            let (x1, y1) = critical_pairs[i];
            let (x2, y2) = critical_pairs[j];
            let found = if x1 == y2 && y1 == x2 {
                true
            } else {
                let mut hit = false;
                let mut k: usize = 0;
                while k < n
                    invariant
                        n == ps.len(),
                        i < n,
                        j < n,
                        k <= n,
                        succ@.len() == n,
                        opp@.len() == n,
                        forall|a: int, c: int|
                            0 <= a < n && 0 <= c < n ==> #[trigger] succ@[a]@[c] == successor_of(poset, ps, a, ps[c]),
                        forall|a: int| 0 <= a < n ==> (#[trigger] succ@[a])@.len() == n,
                        forall|c: int|
                            0 <= c < n ==> match #[trigger] opp@[c] {
                                Some(l) => l < n && ps[l as int] == (ps[c].1, ps[c].0),
                                None => !ps.contains((ps[c].1, ps[c].0)),
                            },
                        hit ==> incompatible(poset, ps, i as int, j as int),
                        !hit ==> forall|c: int|
                            0 <= c < k ==> !(successor_of(poset, ps, i as int, #[trigger] ps[c]) && successor_of(
                                poset,
                                ps,
                                j as int,
                                (ps[c].1, ps[c].0),
                            )),
                    decreases n - k,
                {
                    if !hit && succ[i][k] {
                        match opp[k] {
                            Some(l) => {
                                if succ[j][l] {
                                    assert(successor_of(poset, ps, i as int, ps[k as int]));
                                    hit = true;
                                }
                            },
                            None => {},
                        }
                    }
                    k = k + 1;
                }
                if !hit {
                    assert(!incompatible(poset, ps, i as int, j as int)) by {
                        assert forall|p: (u32, u32)| #[trigger] successor_of(poset, ps, i as int, p) implies !successor_of(
                            poset,
                            ps,
                            j as int,
                            (p.1, p.0),
                        ) by {
                            let c = choose|c: int| 0 <= c < ps.len() && ps[c] == p;
                            assert(!(successor_of(poset, ps, i as int, ps[c]) && successor_of(
                                poset,
                                ps,
                                j as int,
                                (ps[c].1, ps[c].0),
                            )));
                        }
                    }
                }
                hit
            };
            if found {
                edges.push((i, j));
            }
            proof {
                assert(((j + 1) - 1) as usize == j);
                assert(edges@ =~= before_row + incompatible_row(poset, ps, i as int, (j + 1) as nat));
            }
            j = j + 1;
        }
        proof {
            assert(incompatible_upto(poset, ps, (i + 1) as nat) == incompatible_upto(poset, ps, i as nat)
                + incompatible_row(poset, ps, i as int, n as nat));
        }
        i = i + 1;
    }
    edges
}

/// The index of `p` in `pairs`, if it is listed.
fn index_of_pair(pairs: &[(u32, u32)], p: (u32, u32)) -> (r: Option<usize>)
    ensures
        match r {
            Some(i) => i < pairs@.len() && pairs@[i as int] == p,
            None => !pairs@.contains(p),
        },
{
    let mut i: usize = 0;
    while i < pairs.len()
        invariant
            i <= pairs@.len(),
            forall|j: int| 0 <= j < i ==> pairs@[j] != p,
        decreases pairs@.len() - i,
    {
        if pairs[i].0 == p.0 && pairs[i].1 == p.1 {
            return Some(i);
        }
        i = i + 1;
    }
    None
}

/// What a row of the alternating adjacency holds: other pairs, below `k`,
/// whose second element is above the first element of pair `i`.
pub(crate) proof fn lemma_alternating_row<T>(poset: &Poset<T>, pairs: Seq<(u32, u32)>, i: int, k: nat)
    requires
        k <= usize::MAX + 1,
    ensures
        forall|t: int|
            0 <= t < alternating_row(poset, pairs, i, k).len() ==> (#[trigger] alternating_row(poset, pairs, i, k)[t])
                < k && alternating_row(poset, pairs, i, k)[t] != i && poset.leq(
                pairs[i].0 as int,
                pairs[alternating_row(poset, pairs, i, k)[t] as int].1 as int,
            ),
    decreases k,
{
    if k > 0 {
        lemma_alternating_row(poset, pairs, i, (k - 1) as nat);
        let before = alternating_row(poset, pairs, i, (k - 1) as nat);
        let row = alternating_row(poset, pairs, i, k);
        assert forall|t: int| 0 <= t < row.len() implies (#[trigger] row[t]) < k && row[t] != i && poset.leq(
            pairs[i].0 as int,
            pairs[row[t] as int].1 as int,
        ) by {
            if t < before.len() {
                assert(row[t] == before[t]);
            }
        }
    }
}

/// A row of the alternating adjacency holds every other pair, below `k`,
/// whose second element is above the first element of pair `i`.
pub(crate) proof fn lemma_alternating_row_has<T>(poset: &Poset<T>, pairs: Seq<(u32, u32)>, i: int, k: nat, j: int)
    requires
        0 <= j < k,
        j != i,
        k <= usize::MAX + 1,
        poset.leq(pairs[i].0 as int, pairs[j].1 as int),
    ensures
        alternating_row(poset, pairs, i, k).contains(j as usize),
    decreases k,
{
    let before = alternating_row(poset, pairs, i, (k - 1) as nat);
    let row = alternating_row(poset, pairs, i, k);
    if j == k - 1 {
        assert(row == before.push(j as usize));
        assert(row[before.len() as int] == j as usize);
    } else {
        lemma_alternating_row_has(poset, pairs, i, (k - 1) as nat, j);
        let t = choose|t: int| 0 <= t < before.len() && before[t] == j as usize;
        if k - 1 != i && poset.leq(pairs[i].0 as int, pairs[k - 1].1 as int) {
            assert(row[t] == before[t]);
        }
    }
}

/// `c` lists pairs of colour `color`, each different from the next and its
/// first element below the second element of the next, the last leading
/// back to the first: a cycle of the alternating adjacency within the
/// colour class.
pub open spec fn class_cycle<T>(
    poset: &Poset<T>,
    pairs: Seq<(u32, u32)>,
    coloring: Seq<usize>,
    color: int,
    c: Seq<usize>,
) -> bool {
    &&& c.len() >= 1
    &&& forall|i: int| 0 <= i < c.len() ==> #[trigger] c[i] < coloring.len() && coloring[c[i] as int] == color
    &&& forall|i: int|
        0 <= i < c.len() ==> #[trigger] c[i] != c[succ(i, c.len() as int)] && poset.leq(
            pairs[c[i] as int].0 as int,
            pairs[c[succ(i, c.len() as int)] as int].1 as int,
        )
}

/// The place after `i` on a cycle of `len` places.
proof fn lemma_succ(i: int, len: int)
    requires
        0 <= i < len,
    ensures
        i + 1 < len ==> succ(i, len) == i + 1,
        i + 1 == len ==> succ(i, len) == 0,
{
    if i + 1 < len {
        vstd::arithmetic::div_mod::lemma_small_mod((i + 1) as nat, len as nat);
    } else {
        vstd::arithmetic::div_mod::lemma_mod_self_0(len);
    }
}

/// `pic` lists, in increasing order, exactly the pairs of colour `color`,
/// and `class_pairs` holds them.
pub open spec fn lists_class(
    pairs: Seq<(u32, u32)>,
    coloring: Seq<usize>,
    color: int,
    pic: Seq<usize>,
    class_pairs: Seq<(u32, u32)>,
) -> bool {
    &&& coloring.len() <= pairs.len()
    &&& class_pairs.len() == pic.len()
    &&& forall|y: int| 0 <= y < pic.len() ==> #[trigger] pic[y] < coloring.len() && coloring[pic[y] as int] == color
    &&& forall|y: int| 0 <= y < pic.len() ==> #[trigger] class_pairs[y] == pairs[pic[y] as int]
    &&& forall|x: int, y: int| 0 <= x < y < pic.len() ==> pic[x] < pic[y]
    &&& forall|z: usize| z < coloring.len() && coloring[z as int] == color ==> #[trigger] pic.contains(z)
}

/// A cycle of the class's adjacency, read through `pic`, is a cycle of the
/// colour class.
proof fn lemma_local_to_class<T>(
    poset: &Poset<T>,
    pairs: Seq<(u32, u32)>,
    coloring: Seq<usize>,
    color: int,
    pic: Seq<usize>,
    class_pairs: Seq<(u32, u32)>,
    adj: Seq<Vec<usize>>,
    cl: Seq<usize>,
)
    requires
        lists_class(pairs, coloring, color, pic, class_pairs),
        adj.len() == pic.len(),
        pic.len() <= usize::MAX,
        forall|a: int| 0 <= a < adj.len() ==> (#[trigger] adj[a])@ == alternating_row(poset, class_pairs, a, pic.len()),
        is_cycle(adj, cl),
    ensures
        class_cycle(poset, pairs, coloring, color, cl.map(|i: int, a: usize| pic[a as int])),
{
    let c = cl.map(|i: int, a: usize| pic[a as int]);
    let len = cl.len() as int;
    assert forall|i: int| 0 <= i < c.len() implies #[trigger] c[i] != c[succ(i, c.len() as int)] && poset.leq(
        pairs[c[i] as int].0 as int,
        pairs[c[succ(i, c.len() as int)] as int].1 as int,
    ) by {
        lemma_succ(i, len);
        let j = succ(i, len);
        if i + 1 < len {
            assert(edge_at(adj, cl, i));
        }
        assert(adj[cl[i] as int]@.contains(cl[j]));
        lemma_alternating_row(poset, class_pairs, cl[i] as int, pic.len());
        let t = choose|t: int| 0 <= t < adj[cl[i] as int]@.len() && adj[cl[i] as int]@[t] == cl[j];
        assert(alternating_row(poset, class_pairs, cl[i] as int, pic.len())[t] == cl[j]);
        assert(cl[j] != cl[i]);
        if pic[cl[i] as int] == pic[cl[j] as int] {
            if cl[i] < cl[j] {
                assert(pic[cl[i] as int] < pic[cl[j] as int]);
            } else {
                assert(pic[cl[j] as int] < pic[cl[i] as int]);
            }
        }
        assert(class_pairs[cl[i] as int] == pairs[pic[cl[i] as int] as int]);
        assert(class_pairs[cl[j] as int] == pairs[pic[cl[j] as int] as int]);
    }
    assert forall|i: int| 0 <= i < c.len() implies #[trigger] c[i] < coloring.len() && coloring[c[i] as int] == color by {
        assert(cl[i] < adj.len());
    }
}

/// A cycle of a colour class holds two different pairs of it.
proof fn lemma_class_cycle_members<T>(
    poset: &Poset<T>,
    pairs: Seq<(u32, u32)>,
    coloring: Seq<usize>,
    color: int,
    pic: Seq<usize>,
    c: Seq<usize>,
)
    requires
        class_cycle(poset, pairs, coloring, color, c),
        forall|z: usize| z < coloring.len() && coloring[z as int] == color ==> #[trigger] pic.contains(z),
    ensures
        pic.len() >= 2,
{
    let len = c.len() as int;
    lemma_succ(0, len);
    assert(c[0] != c[succ(0, len)]);
    assert(c[0] < coloring.len() && c[1] < coloring.len());
    assert(pic.contains(c[0]) && pic.contains(c[1]));
    let p0 = choose|p: int| 0 <= p < pic.len() && pic[p] == c[0];
    let p1 = choose|p: int| 0 <= p < pic.len() && pic[p] == c[1];
    assert(p0 != p1);
}

/// The edges between consecutive pairs of a cycle, the last back to the
/// first, each as `(smaller, larger)` index.
pub open spec fn cycle_edges(c: Seq<usize>) -> Seq<(usize, usize)> {
    Seq::new(
        c.len(),
        |w: int|
            {
                let a = c[w];
                let b = c[succ(w, c.len() as int)];
                if a < b {
                    (a, b)
                } else {
                    (b, a)
                }
            },
    )
}

/// The cycle edges of the first `k` cycles, one after the other.
pub open spec fn concat_edges(cycles: Seq<Seq<usize>>, k: int) -> Seq<(usize, usize)>
    decreases k,
{
    if k <= 0 {
        Seq::empty()
    } else {
        concat_edges(cycles, k - 1) + cycle_edges(cycles[k - 1])
    }
}

/// Colour `c` has the cycle `cycles[c]`, or, where that is empty, none.
pub open spec fn cycle_or_none<T>(
    poset: &Poset<T>,
    pairs: Seq<(u32, u32)>,
    coloring: Seq<usize>,
    cycles: Seq<Seq<usize>>,
    c: int,
) -> bool {
    if cycles[c].len() > 0 {
        class_cycle(poset, pairs, coloring, c, cycles[c])
    } else {
        !exists|cy: Seq<usize>| #[trigger] class_cycle(poset, pairs, coloring, c, cy)
    }
}

/// Edge `w` of a cycle read through `pic`.
proof fn lemma_cycle_edge(chosen: Seq<usize>, cycle: Seq<usize>, pic: Seq<usize>, w: int, next_w: int, edge: (usize, usize))
    requires
        chosen == cycle.map(|i: int, a: usize| pic[a as int]),
        0 <= w < cycle.len(),
        next_w == if w + 1 < cycle.len() {
            w + 1
        } else {
            0
        },
        edge == (if pic[cycle[w] as int] < pic[cycle[next_w] as int] {
            (pic[cycle[w] as int], pic[cycle[next_w] as int])
        } else {
            (pic[cycle[next_w] as int], pic[cycle[w] as int])
        }),
    ensures
        cycle_edges(chosen)[w] == edge,
{
    lemma_succ(w, cycle.len() as int);
}

/// Appending the next element of `full` to a prefix of it.
proof fn lemma_take_push(
    base: Seq<(usize, usize)>,
    full: Seq<(usize, usize)>,
    w: int,
    before: Seq<(usize, usize)>,
    after: Seq<(usize, usize)>,
)
    requires
        0 <= w < full.len(),
        before == base + full.take(w),
        after == before.push(full[w]),
    ensures
        after == base + full.take(w + 1),
{
    assert(after =~= base + full.take(w + 1));
}

proof fn lemma_concat_prefix(a: Seq<Seq<usize>>, b: Seq<Seq<usize>>, k: int)
    requires
        0 <= k <= a.len(),
        a.len() <= b.len(),
        forall|i: int| 0 <= i < a.len() ==> #[trigger] b[i] == a[i],
    ensures
        concat_edges(b, k) == concat_edges(a, k),
    decreases k,
{
    if k > 0 {
        lemma_concat_prefix(a, b, k - 1);
    }
}

/// A place in `pic` that holds `z`.
pub open spec fn place_of(pic: Seq<usize>, z: usize) -> int {
    choose|p: int| 0 <= p < pic.len() && pic[p] == z
}

/// A step of a class cycle is an edge of the class's adjacency.
proof fn lemma_class_step<T>(
    poset: &Poset<T>,
    pairs: Seq<(u32, u32)>,
    coloring: Seq<usize>,
    color: int,
    pic: Seq<usize>,
    class_pairs: Seq<(u32, u32)>,
    adj: Seq<Vec<usize>>,
    a: usize,
    b: usize,
)
    requires
        lists_class(pairs, coloring, color, pic, class_pairs),
        adj.len() == pic.len(),
        pic.len() <= usize::MAX,
        forall|x: int| 0 <= x < adj.len() ==> (#[trigger] adj[x])@ == alternating_row(poset, class_pairs, x, pic.len()),
        a < coloring.len() && coloring[a as int] == color,
        b < coloring.len() && coloring[b as int] == color,
        a != b,
        poset.leq(pairs[a as int].0 as int, pairs[b as int].1 as int),
    ensures
        0 <= place_of(pic, a) < pic.len(),
        pic[place_of(pic, a)] == a,
        0 <= place_of(pic, b) < pic.len(),
        pic[place_of(pic, b)] == b,
        adj[place_of(pic, a)]@.contains(place_of(pic, b) as usize),
{
    assert(pic.contains(a));
    assert(pic.contains(b));
    let pa = place_of(pic, a);
    let pb = place_of(pic, b);
    assert(class_pairs[pa] == pairs[a as int]);
    assert(class_pairs[pb] == pairs[b as int]);
    lemma_alternating_row_has(poset, class_pairs, pa, pic.len(), pb);
}

/// A cycle of the colour class is, read through places in `pic`, a cycle
/// of the class's adjacency, and the class has at least two pairs.
proof fn lemma_class_to_local<T>(
    poset: &Poset<T>,
    pairs: Seq<(u32, u32)>,
    coloring: Seq<usize>,
    color: int,
    pic: Seq<usize>,
    class_pairs: Seq<(u32, u32)>,
    adj: Seq<Vec<usize>>,
    c: Seq<usize>,
) -> (cl: Seq<usize>)
    requires
        lists_class(pairs, coloring, color, pic, class_pairs),
        adj.len() == pic.len(),
        pic.len() <= usize::MAX,
        forall|a: int| 0 <= a < adj.len() ==> (#[trigger] adj[a])@ == alternating_row(poset, class_pairs, a, pic.len()),
        class_cycle(poset, pairs, coloring, color, c),
    ensures
        pic.len() >= 2,
        is_cycle(adj, cl),
{
    let len = c.len() as int;
    let cl = Seq::new(c.len(), |i: int| place_of(pic, c[i]) as usize);
    assert forall|i: int| 0 <= i < len implies adj[cl[i] as int]@.contains(cl[succ(i, len)]) && #[trigger] cl[i]
        < adj.len() by {
        let j = succ(i, len);
        lemma_succ(i, len);
        lemma_class_step(poset, pairs, coloring, color, pic, class_pairs, adj, c[i], c[j]);
    }
    lemma_succ(0, len);
    if len == 1 {
        assert(c[0] != c[succ(0, len)]);
    }
    assert(pic[cl[0] as int] == c[0] && pic[cl[1] as int] == c[1]) by {
        lemma_class_step(poset, pairs, coloring, color, pic, class_pairs, adj, c[0], c[1]);
    }
    assert(c[0] != c[1]) by {
        assert(c[0] != c[succ(0, len)]);
    }
    assert(cl[0] != cl[1]);
    assert forall|i: int| 0 <= i < cl.len() - 1 implies #[trigger] edge_at(adj, cl, i) by {
        lemma_succ(i, len);
        assert(adj[cl[i] as int]@.contains(cl[succ(i, len)]));
    }
    assert(adj[cl[len - 1] as int]@.contains(cl[0])) by {
        lemma_succ(len - 1, len);
        assert(adj[cl[len - 1] as int]@.contains(cl[succ(len - 1, len)]));
    }
    cl
}

/// A circuit edge: two pairs of one colour class, the first listed before
/// the second, one leading to the other in the alternating adjacency.
pub open spec fn circuit_edge<T>(
    poset: &Poset<T>,
    pairs: Seq<(u32, u32)>,
    coloring: Seq<usize>,
    k: nat,
    e: (usize, usize),
) -> bool {
    &&& e.0 < e.1 < coloring.len()
    &&& coloring[e.0 as int] == coloring[e.1 as int]
    &&& coloring[e.0 as int] < k
    &&& (poset.leq(pairs[e.0 as int].0 as int, pairs[e.1 as int].1 as int) || poset.leq(
        pairs[e.1 as int].0 as int,
        pairs[e.0 as int].1 as int,
    ))
}

/// Checks each colour class of the realizer a colouring stands for: where
/// the alternating adjacency among its pairs has a cycle, the consecutive
/// pairs of the first cycle found, each as `(smaller, larger)` index, are the
/// edges to add to the incompatibility graph.
pub fn find_circuits_in_realizer<T>(critical_pairs: &[(u32, u32)], coloring: &[usize], k: usize, poset: &Poset<T>) -> (r:
    Vec<(usize, usize)>)
    requires
        coloring@.len() <= critical_pairs@.len(),
    ensures
        forall|w: int| 0 <= w < r@.len() ==> circuit_edge(poset, critical_pairs@, coloring@, k as nat, #[trigger] r@[w]),
        r@.len() > 0 <==> exists|cl: int, c: Seq<usize>|
            0 <= cl < k && #[trigger] class_cycle(poset, critical_pairs@, coloring@, cl, c),
        exists|cycles: Seq<Seq<usize>>|
            cycles.len() == k && r@ == #[trigger] concat_edges(cycles, k as int) && forall|c: int|
                0 <= c < k ==> #[trigger] cycle_or_none(poset, critical_pairs@, coloring@, cycles, c),
{
    let ghost mut cycles: Seq<Seq<usize>> = Seq::empty();
    let mut circuits: Vec<(usize, usize)> = Vec::new();
    let mut color: usize = 0;
    while color < k
        invariant
            coloring@.len() <= critical_pairs@.len(),
            color <= k,
            forall|w: int| 0 <= w < circuits@.len() ==> circuit_edge(poset, critical_pairs@, coloring@, k as nat, #[trigger] circuits@[w]),
            circuits@.len() > 0 <==> exists|cl: int, c: Seq<usize>|
                0 <= cl < color && #[trigger] class_cycle(poset, critical_pairs@, coloring@, cl, c),
            cycles.len() == color,
            circuits@ == concat_edges(cycles, color as int),
            forall|c: int| 0 <= c < color ==> #[trigger] cycle_or_none(poset, critical_pairs@, coloring@, cycles, c),
        decreases k - color,
    {
        let ghost c_before = circuits@;
        let ghost mut chosen: Seq<usize> = Seq::empty();
        let mut pairs_in_class: Vec<usize> = Vec::new();
        let mut i: usize = 0;
        while i < coloring.len()
            invariant
                i <= coloring@.len(),
                forall|x: int| 0 <= x < pairs_in_class@.len() ==> #[trigger] pairs_in_class@[x] < i && coloring@[pairs_in_class@[x] as int] == color,
                forall|x: int, y: int| 0 <= x < y < pairs_in_class@.len() ==> pairs_in_class@[x] < pairs_in_class@[y],
                forall|z: usize| z < i && coloring@[z as int] == color ==> #[trigger] pairs_in_class@.contains(z),
            decreases coloring@.len() - i,
        {
            if coloring[i] == color {
                let ghost pold = pairs_in_class@;
                pairs_in_class.push(i);
                proof {
                    assert forall|z: usize| z < i + 1 && coloring@[z as int] == color implies #[trigger] pairs_in_class@.contains(
                        z,
                    ) by {
                        if z < i {
                            assert(pold.contains(z));
                            let q = choose|q: int| 0 <= q < pold.len() && pold[q] == z;
                            assert(pairs_in_class@[q] == z);
                        } else {
                            assert(pairs_in_class@[pold.len() as int] == i);
                        }
                    }
                }
            }
            i = i + 1;
        }
        let m = pairs_in_class.len();
        if m >= 2 {
            let mut class_pairs: Vec<(u32, u32)> = Vec::new();
            let mut x: usize = 0;
            while x < m
                invariant
                    m == pairs_in_class@.len(),
                    coloring@.len() <= critical_pairs@.len(),
                    forall|y: int| 0 <= y < m ==> #[trigger] pairs_in_class@[y] < coloring@.len(),
                    x <= m,
                    class_pairs@.len() == x,
                    forall|y: int| 0 <= y < x ==> #[trigger] class_pairs@[y] == critical_pairs@[pairs_in_class@[y] as int],
                decreases m - x,
            {
                class_pairs.push(critical_pairs[pairs_in_class[x]]);
                x = x + 1;
            }
            let adj = build_alternating_cycle_adj(&class_pairs, poset);
            proof {
                assert forall|a: int, t: int| 0 <= a < adj@.len() && 0 <= t < adj@[a]@.len() implies #[trigger] adj@[a]@[t]
                    < adj@.len() by {
                    lemma_alternating_row(poset, class_pairs@, a, m as nat);
                }
            }
            let mut state: Vec<u8> = Vec::new();
            let mut parent: Vec<usize> = Vec::new();
            let mut y: usize = 0;
            while y < m
                invariant
                    y <= m,
                    state@.len() == y,
                    parent@.len() == y,
                    forall|z: int| 0 <= z < y ==> #[trigger] state@[z] == 0,
                decreases m - y,
            {
                state.push(0);
                parent.push(usize::MAX);
                y = y + 1;
            }
            let mut cycle_found: Option<Vec<usize>> = None;
            let mut start: usize = 0;
            proof {
                assert forall|x: int, t: int|
                    0 <= x < adj@.len() && state@[x] == 2 && 0 <= t < adj@[x]@.len() implies state@[#[trigger] adj@[x]@[t] as int]
                    == 2 by {}
                assert forall|c: Seq<usize>| #[trigger] is_cycle(adj@, c) implies exists|i: int|
                    0 <= i < c.len() && state@[c[i] as int] != 2 by {
                    assert(state@[c[0] as int] != 2);
                }
            }
            while start < m
                invariant_except_break
                    forall|z: int| 0 <= z < m ==> #[trigger] state@[z] == 0 || state@[z] == 2,
                    black_closed(adj@, state@),
                    black_acyclic(adj@, state@),
                    forall|z: int| 0 <= z < start ==> #[trigger] state@[z] == 2,
                    cycle_found is None,
                invariant
                    m == adj@.len(),
                    adj_ok(adj@),
                    state@.len() == m,
                    parent@.len() == m,
                    start <= m,
                    match cycle_found {
                        Some(c) => is_cycle(adj@, c@),
                        None => true,
                    },
                ensures
                    cycle_found is None ==> (forall|z: int| 0 <= z < m ==> #[trigger] state@[z] == 2) && black_acyclic(
                        adj@,
                        state@,
                    ),
                decreases m - start,
            {
                if state[start] == 0 {
                    match find_cycle_dfs(start, &adj, &mut state, &mut parent) {
                        Some(c) => {
                            cycle_found = Some(c);
                            break;
                        },
                        None => {},
                    }
                }
                start = start + 1;
            }
            proof {
                assert(lists_class(critical_pairs@, coloring@, color as int, pairs_in_class@, class_pairs@));
            }
            match cycle_found {
                Some(cycle) => {
                    proof {
                        lemma_local_to_class(
                            poset,
                            critical_pairs@,
                            coloring@,
                            color as int,
                            pairs_in_class@,
                            class_pairs@,
                            adj@,
                            cycle@,
                        );
                        let gc = cycle@.map(|i: int, a: usize| pairs_in_class@[a as int]);
                        assert(class_cycle(poset, critical_pairs@, coloring@, color as int, gc));
                        chosen = gc;
                    }
                    let len = cycle.len();
                    let mut w: usize = 0;
                    while w < len
                        invariant
                            len == cycle@.len(),
                            is_cycle(adj@, cycle@),
                            circuits@.len() == c_before.len() + w,
                            chosen == cycle@.map(|i: int, a: usize| pairs_in_class@[a as int]),
                            circuits@ == c_before + cycle_edges(chosen).take(w as int),
                            exists|c: Seq<usize>| #[trigger] class_cycle(poset, critical_pairs@, coloring@, color as int, c),
                            m == pairs_in_class@.len(),
                            m == class_pairs@.len(),
                            m == adj@.len(),
                            coloring@.len() <= critical_pairs@.len(),
                            color < k,
                            forall|a: int| 0 <= a < m ==> (#[trigger] adj@[a])@ == alternating_row(poset, class_pairs@, a, m as nat),
                            forall|y: int| 0 <= y < m ==> #[trigger] pairs_in_class@[y] < coloring@.len() && coloring@[pairs_in_class@[y] as int] == color,
                            forall|y: int| 0 <= y < m ==> #[trigger] class_pairs@[y] == critical_pairs@[pairs_in_class@[y] as int],
                            forall|x: int, y: int| 0 <= x < y < m ==> pairs_in_class@[x] < pairs_in_class@[y],
                            w <= len,
                            forall|v: int| 0 <= v < circuits@.len() ==> circuit_edge(poset, critical_pairs@, coloring@, k as nat, #[trigger] circuits@[v]),
                        decreases len - w,
                    {
                        let next_w = if w + 1 < len {
                            w + 1
                        } else {
                            0
                        };
                        let ci = cycle[w];
                        let cj = cycle[next_w];
                        proof {
                            if w + 1 < len {
                                assert(next_w == w + 1);
                                assert(edge_at(adj@, cycle@, w as int));
                            } else {
                                assert(next_w == 0);
                            }
                            assert(adj@[ci as int]@.contains(cj));
                            lemma_alternating_row(poset, class_pairs@, ci as int, m as nat);
                            let t = choose|t: int| 0 <= t < adj@[ci as int]@.len() && adj@[ci as int]@[t] == cj;
                            assert(alternating_row(poset, class_pairs@, ci as int, m as nat)[t] == cj);
                        }
                        let pi = pairs_in_class[ci];
                        let pj = pairs_in_class[cj];
                        let edge = if pi < pj {
                            (pi, pj)
                        } else {
                            (pj, pi)
                        };
                        proof {
                            if ci < cj {
                                assert(pi < pj);
                            } else {
                                assert(pj < pi);
                            }
                            lemma_cycle_edge(chosen, cycle@, pairs_in_class@, w as int, next_w as int, edge);
                        }
                        let ghost cw = circuits@;
                        circuits.push(edge);
                        proof {
                            lemma_take_push(c_before, cycle_edges(chosen), w as int, cw, circuits@);
                        }
                        w = w + 1;
                    }
                },
                None => {
                    proof {
                        if exists|c: Seq<usize>| #[trigger] class_cycle(poset, critical_pairs@, coloring@, color as int, c) {
                            let c = choose|c: Seq<usize>| #[trigger] class_cycle(poset, critical_pairs@, coloring@, color as int, c);
                            let cl = lemma_class_to_local(
                                poset,
                                critical_pairs@,
                                coloring@,
                                color as int,
                                pairs_in_class@,
                                class_pairs@,
                                adj@,
                                c,
                            );
                            let i = choose|i: int| 0 <= i < cl.len() && state@[cl[i] as int] != 2;
                            assert(cl[i] < m);
                        }
                    }
                },
            }
        } else {
            proof {
                if exists|c: Seq<usize>| #[trigger] class_cycle(poset, critical_pairs@, coloring@, color as int, c) {
                    let c = choose|c: Seq<usize>| #[trigger] class_cycle(poset, critical_pairs@, coloring@, color as int, c);
                    lemma_class_cycle_members(poset, critical_pairs@, coloring@, color as int, pairs_in_class@, c);
                }
            }
        }
        proof {
            let cycles0 = cycles;
            cycles = cycles.push(chosen);
            assert(concat_edges(cycles, color + 1) == concat_edges(cycles, color as int) + cycle_edges(chosen));
            assert(concat_edges(cycles, color as int) == concat_edges(cycles0, color as int)) by {
                lemma_concat_prefix(cycles0, cycles, color as int);
            }
            if chosen.len() > 0 {
                assert(cycle_edges(chosen).take(chosen.len() as int) =~= cycle_edges(chosen));
            } else {
                assert(cycle_edges(chosen) =~= Seq::<(usize, usize)>::empty());
                assert(circuits@ =~= c_before);
            }
            assert(circuits@ =~= concat_edges(cycles, color + 1));
            assert forall|c: int| 0 <= c < color + 1 implies #[trigger] cycle_or_none(
                poset,
                critical_pairs@,
                coloring@,
                cycles,
                c,
            ) by {
                if c < color {
                    assert(cycles[c] == cycles0[c]);
                    assert(cycle_or_none(poset, critical_pairs@, coloring@, cycles0, c));
                }
            }
            assert(circuits@.len() >= c_before.len());
            assert(circuits@.len() > c_before.len() <==> exists|c: Seq<usize>| #[trigger] class_cycle(
                poset,
                critical_pairs@,
                coloring@,
                color as int,
                c,
            ));
            if circuits@.len() > 0 {
                if c_before.len() > 0 {
                    let (cl, c) = choose|cl: int, c: Seq<usize>|
                        0 <= cl < color && #[trigger] class_cycle(poset, critical_pairs@, coloring@, cl, c);
                    assert(0 <= cl < color + 1 && class_cycle(poset, critical_pairs@, coloring@, cl, c));
                } else {
                    let c = choose|c: Seq<usize>| #[trigger] class_cycle(poset, critical_pairs@, coloring@, color as int, c);
                    assert(class_cycle(poset, critical_pairs@, coloring@, color as int, c));
                }
            }
            if exists|cl: int, c: Seq<usize>| 0 <= cl < color + 1 && #[trigger] class_cycle(poset, critical_pairs@, coloring@, cl, c) {
                let (cl, c) = choose|cl: int, c: Seq<usize>|
                    0 <= cl < color + 1 && #[trigger] class_cycle(poset, critical_pairs@, coloring@, cl, c);
                if cl < color {
                    assert(c_before.len() > 0);
                } else {
                    assert(class_cycle(poset, critical_pairs@, coloring@, color as int, c));
                }
            }
        }
        color = color + 1;
    }
    circuits
}

} // verus!
