//! The hyperedges the hypergraph colouring approach colours: the minimal
//! strict alternating cycles among the critical pairs.
use crate::alternating::{
    alternating_row, build_alternating_cycle_adj, is_strict_cycle, lemma_alternating_row, lemma_alternating_row_has,
    strict_cycle, succ,
};
use crate::cycles::adj_ok;
use crate::hybrid::{lemma_unvisited_mark, pairs_within, unvisited};
use crate::poset::Poset;
use vstd::prelude::*;

verus! {

/// `h` lists a strict alternating cycle of pairs.
pub open spec fn found_cycle<T>(poset: &Poset<T>, pairs: Seq<(u32, u32)>, h: Seq<usize>) -> bool {
    &&& strict_cycle(poset, h, pairs)
    &&& forall|t: int| 0 <= t < h.len() ==> #[trigger] h[t] < pairs.len()
}

/// A copy of a path.
fn copy_path(path: &Vec<usize>) -> (r: Vec<usize>)
    ensures
        r@ == path@,
{
    let mut r: Vec<usize> = Vec::new();
    let mut i: usize = 0;
    while i < path.len()
        invariant
            i <= path@.len(),
            r@ == path@.subrange(0, i as int),
        decreases path@.len() - i,
    {
        r.push(path[i]);
        i = i + 1;
    }
    assert(r@ =~= path@);
    r
}

/// Some list in `hs` holds exactly the path `p`.
pub open spec fn has_path(hs: Seq<Vec<usize>>, p: Seq<usize>) -> bool {
    exists|k: int| 0 <= k < hs.len() && #[trigger] hs[k]@ == p
}

/// Stepping from the end of `path` to pair `n` is a step the search takes
/// (`n` is new, and so are its two elements), and it closes a strict
/// alternating cycle back to `start`.
pub open spec fn opens_cycle<T>(
    poset: &Poset<T>,
    pairs: Seq<(u32, u32)>,
    adj: Seq<Vec<usize>>,
    in_path: Seq<bool>,
    xs: Seq<bool>,
    ys: Seq<bool>,
    start: usize,
    path: Seq<usize>,
    n: usize,
) -> bool {
    &&& n != start
    &&& !in_path[n as int]
    &&& !xs[pairs[n as int].0 as int]
    &&& !ys[pairs[n as int].1 as int]
    &&& adj[n as int]@.contains(start)
    &&& strict_cycle(poset, path.push(n), pairs)
}

proof fn lemma_has_path_grows(a: Seq<Vec<usize>>, b: Seq<Vec<usize>>, p: Seq<usize>)
    requires
        a.len() <= b.len(),
        forall|k: int| 0 <= k < a.len() ==> #[trigger] b[k] == a[k],
        has_path(a, p),
    ensures
        has_path(b, p),
{
    let k = choose|k: int| 0 <= k < a.len() && #[trigger] a[k]@ == p;
    assert(b[k]@ == p);
}

/// Depth-first search from `current`, at the end of the path from `start`,
/// for the strict alternating cycles back to `start` whose pairs have
/// distinct first and distinct second elements. Each one found is added to
/// `hyperedges`; the path and the marks are left as they were found.
pub fn dfs_find_cycles<T>(
    start: usize,
    current: usize,
    path: &mut Vec<usize>,
    visited_xs: &mut Vec<bool>,
    visited_ys: &mut Vec<bool>,
    in_path: &mut Vec<bool>,
    adj: &Vec<Vec<usize>>,
    critical_pairs: &Vec<(u32, u32)>,
    poset: &Poset<T>,
    hyperedges: &mut Vec<Vec<usize>>,
)
    requires
        adj_ok(adj@),
        old(in_path)@.len() == adj@.len(),
        critical_pairs@.len() == adj@.len(),
        pairs_within(critical_pairs@, old(visited_xs)@.len()),
        old(visited_ys)@.len() == old(visited_xs)@.len(),
        current < adj@.len(),
        old(path)@.len() >= 1,
        old(path)@[0] == start,
        old(path)@.last() == current,
        forall|t: int| 0 <= t < old(path)@.len() ==> #[trigger] old(path)@[t] < adj@.len(),
    ensures
        final(path)@ == old(path)@,
        final(visited_xs)@ == old(visited_xs)@,
        final(visited_ys)@ == old(visited_ys)@,
        final(in_path)@ == old(in_path)@,
        final(hyperedges)@.len() >= old(hyperedges)@.len(),
        forall|i: int| 0 <= i < old(hyperedges)@.len() ==> #[trigger] final(hyperedges)@[i] == old(hyperedges)@[i],
        forall|i: int|
            old(hyperedges)@.len() <= i < final(hyperedges)@.len() ==> found_cycle(poset, critical_pairs@, #[trigger] final(hyperedges)@[i]@),
        old(path)@.len() >= 2 && adj@[current as int]@.contains(start) && strict_cycle(poset, old(path)@, critical_pairs@)
            ==> has_path(final(hyperedges)@, old(path)@),
        forall|n: usize|
            adj@[current as int]@.contains(n) && #[trigger] opens_cycle(
                poset,
                critical_pairs@,
                adj@,
                old(in_path)@,
                old(visited_xs)@,
                old(visited_ys)@,
                start,
                old(path)@,
                n,
            ) ==> has_path(final(hyperedges)@, old(path)@.push(n)),
    decreases unvisited(old(in_path)@),
{
    let ghost path0 = path@;
    let ghost xs0 = visited_xs@;
    let ghost ys0 = visited_ys@;
    let ghost in0 = in_path@;
    let ghost h0 = hyperedges@;
    let mut idx: usize = 0;
    while idx < adj[current].len()
        invariant
            adj_ok(adj@),
            critical_pairs@.len() == adj@.len(),
            current < adj@.len(),
            in0 == old(in_path)@,
            path0 == old(path)@,
            xs0 == old(visited_xs)@,
            ys0 == old(visited_ys)@,
            h0 == old(hyperedges)@,
            in0.len() == adj@.len(),
            pairs_within(critical_pairs@, xs0.len()),
            ys0.len() == xs0.len(),
            path0.len() >= 1,
            path0[0] == start,
            path0.last() == current,
            forall|t: int| 0 <= t < path0.len() ==> #[trigger] path0[t] < adj@.len(),
            path@ == path0,
            visited_xs@ == xs0,
            visited_ys@ == ys0,
            in_path@ == in0,
            hyperedges@.len() >= h0.len(),
            forall|i: int| 0 <= i < h0.len() ==> #[trigger] hyperedges@[i] == h0[i],
            forall|i: int|
                h0.len() <= i < hyperedges@.len() ==> found_cycle(poset, critical_pairs@, #[trigger] hyperedges@[i]@),
            idx <= adj@[current as int]@.len(),
            forall|t: int|
                #![trigger adj@[current as int]@[t]]
                0 <= t < idx && adj@[current as int]@[t] == start && path0.len() >= 2 && strict_cycle(poset, path0, critical_pairs@)
                    ==> has_path(hyperedges@, path0),
            forall|t: int|
                0 <= t < idx && #[trigger] opens_cycle(
                    poset,
                    critical_pairs@,
                    adj@,
                    in0,
                    xs0,
                    ys0,
                    start,
                    path0,
                    adj@[current as int]@[t],
                ) ==> has_path(hyperedges@, path0.push(adj@[current as int]@[t])),
        decreases adj@[current as int]@.len() - idx,
    {
        let ghost hs = hyperedges@;
        let ghost t_now = idx as int;
        let neighbor = adj[current][idx];
        idx = idx + 1;
        if neighbor == start && path.len() >= 2 {
            if is_strict_cycle(path.as_slice(), critical_pairs.as_slice(), poset) {
                let h = copy_path(path);
                hyperedges.push(h);
                proof {
                    let last = hyperedges@.len() - 1;
                    assert(found_cycle(poset, critical_pairs@, hyperedges@[last]@));
                    assert(hyperedges@[last]@ == path0);
                    assert(has_path(hyperedges@, path0));
                }
            }
        } else if !in_path[neighbor] {
            let next_x = critical_pairs[neighbor].0 as usize;
            let next_y = critical_pairs[neighbor].1 as usize;
            if !visited_xs[next_x] && !visited_ys[next_y] {
                proof {
                    lemma_unvisited_mark(in0, neighbor as int);
                }
                visited_xs.set(next_x, true);
                visited_ys.set(next_y, true);
                path.push(neighbor);
                in_path.set(neighbor, true);
                let ghost h1 = hyperedges@;
                let ghost stepped = path@;
                dfs_find_cycles(start, neighbor, path, visited_xs, visited_ys, in_path, adj, critical_pairs, poset, hyperedges);
                proof {
                    assert(stepped == path0.push(neighbor));
                    assert forall|k: int| 0 <= k < hs.len() implies #[trigger] hyperedges@[k] == hs[k] by {
                        assert(hyperedges@[k] == h1[k]);
                    }
                    assert forall|i: int| 0 <= i < h0.len() implies #[trigger] hyperedges@[i] == h0[i] by {
                        assert(hyperedges@[i] == h1[i]);
                    }
                    assert forall|i: int| h0.len() <= i < hyperedges@.len() implies found_cycle(poset, critical_pairs@, #[trigger] hyperedges@[i]@) by {
                        if i < h1.len() {
                            assert(hyperedges@[i] == h1[i]);
                        }
                    }
                }
                let _ = path.pop();
                in_path.set(neighbor, false);
                visited_xs.set(next_x, false);
                visited_ys.set(next_y, false);
                proof {
                    assert(path@ =~= path0);
                    assert(in_path@ =~= in0);
                    assert(visited_xs@ =~= xs0);
                    assert(visited_ys@ =~= ys0);
                }
            }
        }
        proof {
            assert(hyperedges@.len() >= hs.len());
            assert forall|k: int| 0 <= k < hs.len() implies #[trigger] hyperedges@[k] == hs[k] by {}
            assert forall|t: int|
                #![trigger adj@[current as int]@[t]]
                0 <= t < idx && adj@[current as int]@[t] == start && path0.len() >= 2 && strict_cycle(
                    poset,
                    path0,
                    critical_pairs@,
                ) implies has_path(hyperedges@, path0) by {
                if t < t_now {
                    lemma_has_path_grows(hs, hyperedges@, path0);
                }
            }
            assert forall|t: int|
                0 <= t < idx && #[trigger] opens_cycle(
                    poset,
                    critical_pairs@,
                    adj@,
                    in0,
                    xs0,
                    ys0,
                    start,
                    path0,
                    adj@[current as int]@[t],
                ) implies has_path(hyperedges@, path0.push(adj@[current as int]@[t])) by {
                if t < t_now {
                    lemma_has_path_grows(hs, hyperedges@, path0.push(adj@[current as int]@[t]));
                }
            }
        }
    }
    proof {
        assert forall|n: usize|
            adj@[current as int]@.contains(n) && #[trigger] opens_cycle(
                poset,
                critical_pairs@,
                adj@,
                in0,
                xs0,
                ys0,
                start,
                path0,
                n,
            ) implies has_path(hyperedges@, path0.push(n)) by {
            let t = choose|t: int| 0 <= t < adj@[current as int]@.len() && adj@[current as int]@[t] == n;
            assert(opens_cycle(poset, critical_pairs@, adj@, in0, xs0, ys0, start, path0, adj@[current as int]@[t]));
        }
        if path0.len() >= 2 && adj@[current as int]@.contains(start) && strict_cycle(poset, path0, critical_pairs@) {
            let t = choose|t: int| 0 <= t < adj@[current as int]@.len() && adj@[current as int]@[t] == start;
            assert(adj@[current as int]@[t] == start);
        }
    }
}

/// `a` holds every element of `b`.
fn holds_all(a: &Vec<usize>, b: &Vec<usize>) -> (r: bool)
    ensures
        r == b@.to_set().subset_of(a@.to_set()),
{
    let mut i: usize = 0;
    while i < b.len()
        invariant
            i <= b@.len(),
            forall|x: int| 0 <= x < i ==> a@.contains(#[trigger] b@[x]),
        decreases b@.len() - i,
    {
        let mut found = false;
        let mut j: usize = 0;
        while j < a.len()
            invariant
                i < b@.len(),
                j <= a@.len(),
                found ==> a@.contains(b@[i as int]),
                !found ==> forall|y: int| 0 <= y < j ==> a@[y] != b@[i as int],
            decreases a@.len() - j,
        {
            if a[j] == b[i] {
                found = true;
            }
            j = j + 1;
        }
        if !found {
            assert(b@.to_set().contains(b@[i as int]));
            assert(!a@.to_set().contains(b@[i as int]));
            return false;
        }
        i = i + 1;
    }
    assert forall|x: usize| b@.to_set().contains(x) implies a@.to_set().contains(x) by {
        let k = choose|k: int| 0 <= k < b@.len() && b@[k] == x;
        assert(a@.contains(b@[k]));
    }
    true
}

/// The two lists hold the same elements.
fn same_elements(a: &Vec<usize>, b: &Vec<usize>) -> (r: bool)
    ensures
        r == (a@.to_set() == b@.to_set()),
{
    let ab = holds_all(a, b);
    let ba = holds_all(b, a);
    proof {
        if ab && ba {
            assert(a@.to_set() =~= b@.to_set());
        }
    }
    ab && ba
}

/// No list of `hs` holds a proper part of the pairs list `y` holds.
pub open spec fn globally_minimal(hs: Seq<Vec<usize>>, y: int) -> bool {
    forall|o: int| 0 <= o < hs.len() && #[trigger] hs[o]@.to_set().subset_of(hs[y]@.to_set()) ==> hs[o]@.to_set() == hs[y]@.to_set()
}

/// Pairs `i` and `j`, two different ones, form a strict alternating cycle
/// of length two.
pub open spec fn two_cycle<T>(poset: &Poset<T>, pairs: Seq<(u32, u32)>, i: usize, j: usize) -> bool {
    &&& i != j
    &&& i < pairs.len()
    &&& j < pairs.len()
    &&& strict_cycle(poset, seq![i, j], pairs)
}

proof fn lemma_two_cycle<T>(poset: &Poset<T>, pairs: Seq<(u32, u32)>, i: usize, j: usize)
    requires
        two_cycle(poset, pairs, i, j),
    ensures
        poset.leq(pairs[i as int].0 as int, pairs[j as int].1 as int),
        poset.leq(pairs[j as int].0 as int, pairs[i as int].1 as int),
        pairs[i as int].0 != pairs[j as int].0,
        pairs[i as int].1 != pairs[j as int].1,
{
    let c = seq![i, j];
    assert(c[0] == i && c[1] == j);
    assert(succ(0, 2) == 1 && succ(1, 2) == 0 && succ(0, 2) != 0 && succ(1, 2) != 1);
    assert(poset.leq(pairs[c[0] as int].0 as int, pairs[c[1] as int].1 as int) == (1 == succ(0, 2)));
    assert(poset.leq(pairs[c[1] as int].0 as int, pairs[c[0] as int].1 as int) == (0 == succ(1, 2)));
    assert(poset.leq(pairs[c[0] as int].0 as int, pairs[c[0] as int].1 as int) == (0 == succ(0, 2)));
    assert(poset.leq(pairs[c[1] as int].0 as int, pairs[c[1] as int].1 as int) == (1 == succ(1, 2)));
}

/// The first two pairs of a strict alternating cycle differ.
proof fn lemma_strict_first_two<T>(poset: &Poset<T>, cycle: Seq<usize>, pairs: Seq<(u32, u32)>)
    requires
        strict_cycle(poset, cycle, pairs),
    ensures
        cycle[0] != cycle[1],
{
    let n = cycle.len() as int;
    assert(succ(0, n) == 1) by (nonlinear_arith)
        requires
            n >= 2,
    {
        assert(1int % n == 1);
    }
    assert(poset.leq(pairs[cycle[0] as int].0 as int, pairs[cycle[1] as int].1 as int) == (1 == succ(0, n)));
    assert(poset.leq(pairs[cycle[0] as int].0 as int, pairs[cycle[0] as int].1 as int) == (0 == succ(0, n)));
}

/// The largest element of a pair, plus one: a bound on the elements, when
/// it can be counted in a `usize`.
fn element_bound(pairs: &Vec<(u32, u32)>) -> (r: Option<usize>)
    ensures
        r matches Some(b) ==> pairs_within(pairs@, b as nat),
        r is None <==> exists|i: int|
            0 <= i < pairs@.len() && ((#[trigger] pairs@[i]).0 == usize::MAX || pairs@[i].1 == usize::MAX),
{
    let mut bound: usize = 0;
    let mut i: usize = 0;
    while i < pairs.len()
        invariant
            i <= pairs@.len(),
            forall|x: int| 0 <= x < i ==> (#[trigger] pairs@[x]).0 < bound && pairs@[x].1 < bound,
            forall|x: int| 0 <= x < i ==> (#[trigger] pairs@[x]).0 != usize::MAX && pairs@[x].1 != usize::MAX,
        decreases pairs@.len() - i,
    {
        let (x, y) = pairs[i];
        if x as usize == usize::MAX || y as usize == usize::MAX {
            return None;
        }
        if x as usize >= bound {
            bound = x as usize + 1;
        }
        if y as usize >= bound {
            bound = y as usize + 1;
        }
        i = i + 1;
    }
    Some(bound)
}

/// Finds the minimal strict alternating cycles among the critical pairs:
/// every strict alternating cycle the search meets, reduced to those no
/// other one met holds properly, each set of pairs once. Every two pairs
/// that form a strict alternating cycle by themselves are among them, as
/// long as no element is `usize::MAX`.
pub fn find_minimal_hyperedges<T>(critical_pairs: &Vec<(u32, u32)>, poset: &Poset<T>) -> (r: Vec<Vec<usize>>)
    ensures
        forall|i: int| 0 <= i < r@.len() ==> found_cycle(poset, critical_pairs@, r@[i]@),
        forall|i: int, j: int|
            0 <= i < r@.len() && 0 <= j < r@.len() && i != j ==> r@[i]@.to_set() != r@[j]@.to_set(),
        forall|i: int, j: int|
            0 <= i < r@.len() && 0 <= j < r@.len() && r@[j]@.to_set().subset_of(r@[i]@.to_set()) ==> r@[j]@.to_set()
                == r@[i]@.to_set(),
        pairs_within(critical_pairs@, usize::MAX as nat) ==> forall|i: usize, j: usize|
            #[trigger] two_cycle(poset, critical_pairs@, i, j) ==> exists|x: int|
                0 <= x < r@.len() && r@[x]@.to_set() == seq![i, j].to_set(),
{
    let m = critical_pairs.len();
    if m < 2 {
        return Vec::new();
    }
    let adj = build_alternating_cycle_adj(critical_pairs.as_slice(), poset);
    proof {
        assert forall|a: int, t: int| 0 <= a < adj@.len() && 0 <= t < adj@[a]@.len() implies #[trigger] adj@[a]@[t]
            < adj@.len() by {
            lemma_alternating_row(poset, critical_pairs@, a, m as nat);
        }
    }
    let bound = match element_bound(critical_pairs) {
        Some(b) => b,
        None => {
            return Vec::new();
        },
    };
    let mut hyperedges: Vec<Vec<usize>> = Vec::new();
    let mut start: usize = 0;
    while start < m
        invariant
            m == critical_pairs@.len(),
            m == adj@.len(),
            adj_ok(adj@),
            pairs_within(critical_pairs@, bound as nat),
            start <= m,
            forall|i: int| 0 <= i < hyperedges@.len() ==> found_cycle(poset, critical_pairs@, hyperedges@[i]@),
            forall|a: int| 0 <= a < m ==> (#[trigger] adj@[a])@ == alternating_row(poset, critical_pairs@, a, m as nat),
            forall|i: usize, j: usize|
                i < start && #[trigger] two_cycle(poset, critical_pairs@, i, j) ==> has_path(hyperedges@, seq![i, j]),
        decreases m - start,
    {
        let (x_init, y_init) = critical_pairs[start];
        let mut path: Vec<usize> = Vec::new();
        path.push(start);
        let mut visited_xs: Vec<bool> = Vec::new();
        let mut visited_ys: Vec<bool> = Vec::new();
        let mut b: usize = 0;
        while b < bound
            invariant
                b <= bound,
                visited_xs@.len() == b,
                visited_ys@.len() == b,
                forall|z: int| 0 <= z < b ==> !(#[trigger] visited_xs@[z]),
                forall|z: int| 0 <= z < b ==> !(#[trigger] visited_ys@[z]),
            decreases bound - b,
        {
            visited_xs.push(false);
            visited_ys.push(false);
            b = b + 1;
        }
        visited_xs.set(x_init as usize, true);
        visited_ys.set(y_init as usize, true);
        let mut in_path: Vec<bool> = Vec::new();
        let mut c: usize = 0;
        while c < m
            invariant
                c <= m,
                in_path@.len() == c,
                forall|z: int| 0 <= z < c ==> !(#[trigger] in_path@[z]),
            decreases m - c,
        {
            in_path.push(false);
            c = c + 1;
        }
        in_path.set(start, true);
        let ghost before = hyperedges@;
        let ghost in_init = in_path@;
        let ghost xs_init = visited_xs@;
        let ghost ys_init = visited_ys@;
        assert(path@ == seq![start]);
        proof {
            assert forall|j: usize| #[trigger] two_cycle(poset, critical_pairs@, start, j) implies adj@[start as int]@.contains(j)
                && opens_cycle(poset, critical_pairs@, adj@, in_init, xs_init, ys_init, start, seq![start], j) by {
                lemma_two_cycle(poset, critical_pairs@, start, j);
                lemma_alternating_row_has(poset, critical_pairs@, start as int, m as nat, j as int);
                lemma_alternating_row_has(poset, critical_pairs@, j as int, m as nat, start as int);
                assert(seq![start].push(j) =~= seq![start, j]);
                assert(adj@[start as int]@.contains(j));
                assert(!in_init[j as int]);
                assert(!xs_init[critical_pairs@[j as int].0 as int]);
                assert(!ys_init[critical_pairs@[j as int].1 as int]);
                assert(adj@[j as int]@.contains(start));
                assert(strict_cycle(poset, seq![start].push(j), critical_pairs@));
            }
        }
        dfs_find_cycles(
            start,
            start,
            &mut path,
            &mut visited_xs,
            &mut visited_ys,
            &mut in_path,
            &adj,
            critical_pairs,
            poset,
            &mut hyperedges,
        );
        proof {
            assert forall|i: int| 0 <= i < hyperedges@.len() implies found_cycle(poset, critical_pairs@, hyperedges@[i]@) by {
                if i < before.len() {
                    assert(hyperedges@[i] == before[i]);
                } else {
                    assert(found_cycle(poset, critical_pairs@, hyperedges@[i]@));
                }
            }
            assert forall|i: usize, j: usize|
                i <= start && #[trigger] two_cycle(poset, critical_pairs@, i, j) implies has_path(hyperedges@, seq![i, j]) by {
                if i < start {
                    lemma_has_path_grows(before, hyperedges@, seq![i, j]);
                } else {
                    assert(opens_cycle(poset, critical_pairs@, adj@, in_init, xs_init, ys_init, start, seq![start], j));
                    assert(seq![start].push(j) =~= seq![i, j]);
                }
            }
        }
        start = start + 1;
    }
    // Keep the hyperedges no other one holds properly, each once.
    let mut minimal: Vec<Vec<usize>> = Vec::new();
    let mut i: usize = 0;
    while i < hyperedges.len()
        invariant
            i <= hyperedges@.len(),
            forall|x: int| 0 <= x < hyperedges@.len() ==> found_cycle(poset, critical_pairs@, hyperedges@[x]@),
            forall|x: int| 0 <= x < minimal@.len() ==> found_cycle(poset, critical_pairs@, minimal@[x]@),
            forall|x: int| 0 <= x < minimal@.len() ==> exists|y: int| 0 <= y < hyperedges@.len() && #[trigger] minimal@[x]@ == hyperedges@[y]@,
            forall|x: int, y: int|
                0 <= x < minimal@.len() && 0 <= y < hyperedges@.len() && #[trigger] hyperedges@[y]@.to_set().subset_of(
                    minimal@[x]@.to_set(),
                ) ==> hyperedges@[y]@.to_set() == minimal@[x]@.to_set(),
            forall|x: int, y: int|
                0 <= x < minimal@.len() && 0 <= y < minimal@.len() && x != y ==> minimal@[x]@.to_set() != minimal@[y]@.to_set(),
            forall|y: int|
                0 <= y < i && #[trigger] globally_minimal(hyperedges@, y) ==> exists|x: int|
                    0 <= x < minimal@.len() && minimal@[x]@.to_set() == hyperedges@[y]@.to_set(),
        decreases hyperedges@.len() - i,
    {
        let ghost min0 = minimal@;
        let h = &hyperedges[i];
        let mut is_minimal = true;
        let mut o: usize = 0;
        while o < hyperedges.len()
            invariant
                i < hyperedges@.len(),
                h@ == hyperedges@[i as int]@,
                o <= hyperedges@.len(),
                is_minimal ==> forall|y: int|
                    0 <= y < o && #[trigger] hyperedges@[y]@.to_set().subset_of(h@.to_set()) ==> hyperedges@[y]@.to_set()
                        == h@.to_set(),
                !is_minimal ==> !globally_minimal(hyperedges@, i as int),
            decreases hyperedges@.len() - o,
        {
            let other = &hyperedges[o];
            if !same_elements(other, h) && holds_all(h, other) {
                is_minimal = false;
                assert(hyperedges@[o as int]@.to_set().subset_of(hyperedges@[i as int]@.to_set()));
            }
            o = o + 1;
        }
        if is_minimal {
            let mut seen = false;
            let mut e: usize = 0;
            while e < minimal.len()
                invariant
                    e <= minimal@.len(),
                    seen ==> exists|x: int| 0 <= x < minimal@.len() && minimal@[x]@.to_set() == h@.to_set(),
                    !seen ==> forall|x: int| 0 <= x < e ==> minimal@[x]@.to_set() != h@.to_set(),
                decreases minimal@.len() - e,
            {
                if same_elements(&minimal[e], h) {
                    seen = true;
                }
                e = e + 1;
            }
            if !seen {
                let copy = copy_path(h);
                let ghost before = minimal@;
                minimal.push(copy);
                proof {
                    let last = before.len() as int;
                    assert(minimal@[last]@ == hyperedges@[i as int]@);
                    assert forall|x: int| 0 <= x < minimal@.len() implies found_cycle(poset, critical_pairs@, minimal@[x]@) by {
                        if x < last {
                            assert(minimal@[x] == before[x]);
                        } else {
                            assert(found_cycle(poset, critical_pairs@, hyperedges@[i as int]@));
                        }
                    }
                    assert forall|x: int| 0 <= x < minimal@.len() implies exists|y: int|
                        0 <= y < hyperedges@.len() && #[trigger] minimal@[x]@ == hyperedges@[y]@ by {
                        if x < last {
                            assert(minimal@[x] == before[x]);
                        } else {
                            assert(minimal@[x]@ == hyperedges@[i as int]@);
                        }
                    }
                    assert forall|x: int, y: int|
                        0 <= x < minimal@.len() && 0 <= y < hyperedges@.len() && #[trigger] hyperedges@[y]@.to_set().subset_of(
                            minimal@[x]@.to_set(),
                        ) implies hyperedges@[y]@.to_set() == minimal@[x]@.to_set() by {
                        if x < last {
                            assert(minimal@[x] == before[x]);
                        }
                    }
                    assert forall|x: int, y: int|
                        0 <= x < minimal@.len() && 0 <= y < minimal@.len() && x != y implies minimal@[x]@.to_set()
                        != minimal@[y]@.to_set() by {
                        if x < last && y < last {
                            assert(minimal@[x] == before[x] && minimal@[y] == before[y]);
                        } else if x < last {
                            assert(minimal@[x] == before[x]);
                        } else {
                            assert(minimal@[y] == before[y]);
                        }
                    }
                }
            }
        }
        proof {
            assert(minimal@.len() >= min0.len());
            assert(forall|k: int| 0 <= k < min0.len() ==> #[trigger] minimal@[k] == min0[k]);
            assert forall|y: int|
                0 <= y < i + 1 && #[trigger] globally_minimal(hyperedges@, y) implies exists|x: int|
                    0 <= x < minimal@.len() && minimal@[x]@.to_set() == hyperedges@[y]@.to_set() by {
                if y < i {
                    let x = choose|x: int| 0 <= x < min0.len() && min0[x]@.to_set() == hyperedges@[y]@.to_set();
                    assert(minimal@[x] == min0[x]);
                } else if minimal@.len() > min0.len() {
                    assert(minimal@[min0.len() as int]@ == hyperedges@[i as int]@);
                }
            }
        }
        i = i + 1;
    }
    proof {
        assert forall|x: int, y: int|
            0 <= x < minimal@.len() && 0 <= y < minimal@.len() && minimal@[y]@.to_set().subset_of(minimal@[x]@.to_set())
            implies minimal@[y]@.to_set() == minimal@[x]@.to_set() by {
            let z = choose|z: int| 0 <= z < hyperedges@.len() && #[trigger] minimal@[y]@ == hyperedges@[z]@;
            assert(hyperedges@[z]@.to_set().subset_of(minimal@[x]@.to_set()));
        }
        assert forall|i: usize, j: usize| #[trigger] two_cycle(poset, critical_pairs@, i, j) implies exists|x: int|
            0 <= x < minimal@.len() && minimal@[x]@.to_set() == seq![i, j].to_set() by {
            assert(has_path(hyperedges@, seq![i, j]));
            let k = choose|k: int| 0 <= k < hyperedges@.len() && #[trigger] hyperedges@[k]@ == seq![i, j];
            let pair_set = seq![i, j].to_set();
            assert(pair_set.contains(i) && pair_set.contains(j));
            assert forall|o: int|
                0 <= o < hyperedges@.len() && #[trigger] hyperedges@[o]@.to_set().subset_of(hyperedges@[k]@.to_set())
                implies hyperedges@[o]@.to_set() == hyperedges@[k]@.to_set() by {
                let c = hyperedges@[o]@;
                assert(found_cycle(poset, critical_pairs@, c));
                lemma_strict_first_two(poset, c, critical_pairs@);
                assert(c.to_set().contains(c[0]) && c.to_set().contains(c[1]));
                assert(c.to_set().contains(i) && c.to_set().contains(j));
                assert forall|v: usize| pair_set.contains(v) implies c.to_set().contains(v) by {
                    assert(seq![i, j][0] == i && seq![i, j][1] == j);
                    let q = choose|q: int| 0 <= q < 2 && seq![i, j][q] == v;
                }
                assert(c.to_set() =~= pair_set);
            }
            assert(globally_minimal(hyperedges@, k));
        }
    }
    minimal
}

} // verus!
