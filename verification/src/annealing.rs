//! The annealing that finds the incumbent for the exact search: a pair of
//! linear extensions, improved by swapping adjacent incomparable nodes.
use crate::dimdraw::{before_in, matrix_bit, random_linear_extension, reaches, respects_order, Rng};
use crate::dimdraw_search::{height_of, pairs_ok, run_search, SearchResult, SearchSetup};
use crate::search_budget::SearchBudget;
use vstd::prelude::*;

verus! {

/// How many times the annealing starts over from a fresh random pair.
pub const ANNEAL_RESTARTS: usize = 8;

/// Steps of one restart, per square of the node count.
pub const ANNEAL_STEPS_PER_NODE_SQUARED: u64 = 200;

/// The fixed seed of the annealing's generator.
pub const ANNEAL_SEED: u64 = 0x2545_F491_4F6C_DD1D;

/// `order` lists every node of the order on `0..n` once, each after all
/// nodes below it.
pub open spec fn is_linear_extension(m: Seq<u64>, words: nat, n: nat, order: Seq<usize>) -> bool {
    respects_order(m, words, n, order) && order.len() == n
}

/// The two orders put the nodes of the pair the same way round.
pub open spec fn agrees(first: Seq<usize>, second: Seq<usize>, p: (usize, usize)) -> bool {
    before_in(first, p.0 as nat, p.1 as nat) == before_in(second, p.0 as nat, p.1 as nat)
}

/// On how many of `pairs` the two orders agree.
pub open spec fn agreement_count(pairs: Seq<(usize, usize)>, first: Seq<usize>, second: Seq<usize>) -> nat
    decreases pairs.len(),
{
    if pairs.len() == 0 {
        0
    } else {
        agreement_count(pairs.drop_last(), first, second) + if agrees(first, second, pairs.last()) {
            1nat
        } else {
            0nat
        }
    }
}

/// `pos` gives the place of each node in `order`, which lists `0..n`.
pub open spec fn inverse_of(order: Seq<usize>, pos: Seq<usize>, n: nat) -> bool {
    &&& order.len() == n
    &&& pos.len() == n
    &&& forall|i: int| 0 <= i < n ==> #[trigger] order[i] < n && pos[order[i] as int] == i
    &&& forall|x: int| 0 <= x < n ==> #[trigger] pos[x] < n && order[pos[x] as int] == x
}

proof fn lemma_before_pos(order: Seq<usize>, pos: Seq<usize>, n: nat)
    requires
        inverse_of(order, pos, n),
    ensures
        forall|a: usize, b: usize|
            a < n && b < n ==> (#[trigger] before_in(order, a as nat, b as nat) <==> pos[a as int] < pos[b as int]),
{
    assert forall|a: usize, b: usize| a < n && b < n implies (#[trigger] before_in(order, a as nat, b as nat)
        <==> pos[a as int] < pos[b as int]) by {
        if before_in(order, a as nat, b as nat) {
            let (i, j) = choose|i: int, j: int| 0 <= i < j < order.len() && order[i] == a && order[j] == b;
            assert(pos[order[i] as int] == i);
            assert(pos[order[j] as int] == j);
        }
        if pos[a as int] < pos[b as int] {
            let i = pos[a as int] as int;
            let j = pos[b as int] as int;
            assert(order[i] == a && order[j] == b);
        }
    }
}

proof fn lemma_count_bound(pairs: Seq<(usize, usize)>, first: Seq<usize>, second: Seq<usize>)
    ensures
        agreement_count(pairs, first, second) <= pairs.len(),
    decreases pairs.len(),
{
    if pairs.len() > 0 {
        lemma_count_bound(pairs.drop_last(), first, second);
    }
}

/// Two pairs of orders that agree on the same pairs but the one at `k`
/// differ in their counts by what they count at `k`.
proof fn lemma_count_change(
    pairs: Seq<(usize, usize)>,
    a1: Seq<usize>,
    b1: Seq<usize>,
    a2: Seq<usize>,
    b2: Seq<usize>,
    k: int,
)
    requires
        0 <= k,
        forall|i: int| 0 <= i < pairs.len() && i != k ==> agrees(a1, b1, #[trigger] pairs[i]) == agrees(a2, b2, pairs[i]),
    ensures
        agreement_count(pairs, a2, b2) - agreement_count(pairs, a1, b1) == if k < pairs.len() {
            (if agrees(a2, b2, pairs[k]) {
                1int
            } else {
                0int
            }) - (if agrees(a1, b1, pairs[k]) {
                1int
            } else {
                0int
            })
        } else {
            0int
        },
    decreases pairs.len(),
{
    if pairs.len() > 0 {
        let d = pairs.drop_last();
        assert forall|i: int| 0 <= i < d.len() && i != k implies agrees(a1, b1, #[trigger] d[i]) == agrees(a2, b2, d[i]) by {
            assert(d[i] == pairs[i]);
        }
        lemma_count_change(d, a1, b1, a2, b2, k);
        if k < d.len() {
            assert(d[k] == pairs[k]);
        }
        if k != pairs.len() - 1 {
            assert(agrees(a1, b1, pairs[pairs.len() - 1]) == agrees(a2, b2, pairs[pairs.len() - 1]));
        }
    }
}

/// The places of the nodes in `order`.
fn positions_of(order: &Vec<usize>, n: usize) -> (pos: Vec<usize>)
    requires
        order@.len() == n,
        forall|i: int| 0 <= i < n ==> #[trigger] order@[i] < n,
        forall|i: int, j: int| 0 <= i < j < n ==> order@[i] != order@[j],
    ensures
        inverse_of(order@, pos@, n as nat),
{
    let mut pos: Vec<usize> = Vec::new();
    let mut x: usize = 0;
    while x < n
        invariant
            x <= n,
            pos@.len() == x,
        decreases n - x,
    {
        pos.push(0);
        x = x + 1;
    }
    let mut i: usize = 0;
    while i < n
        invariant
            order@.len() == n,
            pos@.len() == n,
            i <= n,
            forall|a: int| 0 <= a < n ==> #[trigger] order@[a] < n,
            forall|a: int, b: int| 0 <= a < b < n ==> order@[a] != order@[b],
            forall|j: int| 0 <= j < i ==> #[trigger] pos@[order@[j] as int] == j,
        decreases n - i,
    {
        let ghost before = pos@;
        pos.set(order[i], i);
        proof {
            assert forall|j: int| 0 <= j < i + 1 implies #[trigger] pos@[order@[j] as int] == j by {
                if j < i {
                    assert(order@[j] != order@[i as int]);
                    assert(pos@[order@[j] as int] == before[order@[j] as int]);
                }
            }
        }
        i = i + 1;
    }
    proof {
        crate::coloring::lemma_perm_covers(order@, n as nat);
        assert forall|y: int| 0 <= y < n implies #[trigger] pos@[y] < n && order@[pos@[y] as int] == y by {
            assert(order@.contains(y as usize));
            let j = choose|j: int| 0 <= j < order@.len() && order@[j] == y as usize;
            assert(pos@[order@[j] as int] == j);
        }
    }
    pos
}

/// A copy of an order.
fn copy_order(order: &Vec<usize>) -> (r: Vec<usize>)
    ensures
        r@ == order@,
{
    let mut r: Vec<usize> = Vec::new();
    let mut i: usize = 0;
    while i < order.len()
        invariant
            i <= order@.len(),
            r@ == order@.subrange(0, i as int),
        decreases order@.len() - i,
    {
        r.push(order[i]);
        i = i + 1;
    }
    assert(r@ =~= order@);
    r
}

/// On how many pairs the orders with places `pos0` and `pos1` agree.
fn count_agreements(
    pairs: &Vec<(usize, usize)>,
    pos0: &Vec<usize>,
    pos1: &Vec<usize>,
    Ghost(order0): Ghost<Seq<usize>>,
    Ghost(order1): Ghost<Seq<usize>>,
    n: usize,
) -> (c: u32)
    requires
        inverse_of(order0, pos0@, n as nat),
        inverse_of(order1, pos1@, n as nat),
        pairs_ok(pairs@, n as nat),
        pairs@.len() < u32::MAX,
    ensures
        c == agreement_count(pairs@, order0, order1),
{
    proof {
        lemma_before_pos(order0, pos0@, n as nat);
        lemma_before_pos(order1, pos1@, n as nat);
    }
    let mut c: u32 = 0;
    let mut i: usize = 0;
    while i < pairs.len()
        invariant
            inverse_of(order0, pos0@, n as nat),
            inverse_of(order1, pos1@, n as nat),
            pairs_ok(pairs@, n as nat),
            pairs@.len() < u32::MAX,
            forall|a: usize, b: usize|
                a < n && b < n ==> (#[trigger] before_in(order0, a as nat, b as nat) <==> pos0@[a as int] < pos0@[b as int]),
            forall|a: usize, b: usize|
                a < n && b < n ==> (#[trigger] before_in(order1, a as nat, b as nat) <==> pos1@[a as int] < pos1@[b as int]),
            i <= pairs@.len(),
            c == agreement_count(pairs@.subrange(0, i as int), order0, order1),
        decreases pairs@.len() - i,
    {
        let (u, v) = pairs[i];
        proof {
            let t = pairs@.subrange(0, i + 1);
            assert(t.drop_last() =~= pairs@.subrange(0, i as int));
            assert(t.last() == pairs@[i as int]);
            assert(before_in(order0, u as nat, v as nat) <==> pos0@[u as int] < pos0@[v as int]);
            assert(before_in(order1, u as nat, v as nat) <==> pos1@[u as int] < pos1@[v as int]);
            lemma_count_bound(pairs@.subrange(0, i as int), order0, order1);
        }
        if (pos0[u] < pos0[v]) == (pos1[u] < pos1[v]) {
            c = c + 1;
        }
        i = i + 1;
    }
    assert(pairs@.subrange(0, pairs@.len() as int) =~= pairs@);
    c
}

/// Swaps the adjacent nodes at `at` and `at + 1`, keeping their places.
fn swap_adjacent(order: &mut Vec<usize>, pos: &mut Vec<usize>, at: usize, Ghost(n): Ghost<nat>)
    requires
        inverse_of(old(order)@, old(pos)@, n),
        at + 1 < n,
        n <= usize::MAX,
    ensures
        inverse_of(final(order)@, final(pos)@, n),
        final(order)@ == old(order)@.update(at as int, old(order)@[at + 1]).update(at + 1, old(order)@[at as int]),
        final(pos)@ == old(pos)@.update(old(order)@[at as int] as int, (at + 1) as usize).update(
            old(order)@[at + 1] as int,
            at,
        ),
{
    let ghost o = order@;
    let ghost p = pos@;
    let u = order[at];
    let v = order[at + 1];
    proof {
        assert(p[u as int] == at && p[v as int] == at + 1);
    }
    order.set(at, v);
    order.set(at + 1, u);
    pos.set(u, at + 1);
    pos.set(v, at);
    proof {
        assert forall|i: int| 0 <= i < n implies #[trigger] order@[i] < n && pos@[order@[i] as int] == i by {
            if i != at && i != at + 1 {
                assert(order@[i] == o[i]);
                assert(p[o[i] as int] == i);
                assert(o[i] != u && o[i] != v);
            }
        }
        assert forall|x: int| 0 <= x < n implies #[trigger] pos@[x] < n && order@[pos@[x] as int] == x by {
            if x != u && x != v {
                assert(pos@[x] == p[x]);
                assert(o[p[x] as int] == x);
                assert(p[x] != at && p[x] != at + 1);
            }
        }
    }
}

/// Swapping adjacent incomparable nodes keeps an order a linear extension.
proof fn lemma_swap_respects(m: Seq<u64>, words: nat, n: nat, o: Seq<usize>, at: int)
    requires
        respects_order(m, words, n, o),
        0 <= at,
        at + 1 < o.len(),
        !matrix_bit(m, words, o[at] as nat, o[at + 1] as nat),
        !matrix_bit(m, words, o[at + 1] as nat, o[at] as nat),
    ensures
        respects_order(m, words, n, o.update(at, o[at + 1]).update(at + 1, o[at])),
{
    let s = o.update(at, o[at + 1]).update(at + 1, o[at]);
    assert forall|i: int| 0 <= i < s.len() implies #[trigger] s[i] < n by {
        let si = if i == at {
            at + 1
        } else if i == at + 1 {
            at
        } else {
            i
        };
        assert(s[i] == o[si]);
    }
    assert forall|i: int, j: int| 0 <= i < j < s.len() implies s[i] != s[j] && !matrix_bit(
        m,
        words,
        #[trigger] s[j] as nat,
        #[trigger] s[i] as nat,
    ) by {
        let si = if i == at {
            at + 1
        } else if i == at + 1 {
            at
        } else {
            i
        };
        let sj = if j == at {
            at + 1
        } else if j == at + 1 {
            at
        } else {
            j
        };
        assert(s[i] == o[si] && s[j] == o[sj]);
        if si < sj {
            assert(o[si] != o[sj]);
            assert(!matrix_bit(m, words, o[sj] as nat, o[si] as nat));
        } else {
            assert(si == at + 1 && sj == at);
            assert(o[at] != o[at + 1]);
        }
    }
}

/// After an adjacent swap, the two swapped nodes have changed places and
/// every other two nodes keep theirs.
proof fn lemma_swap_effect(o: Seq<usize>, p: Seq<usize>, o2: Seq<usize>, p2: Seq<usize>, n: nat, at: int)
    requires
        inverse_of(o, p, n),
        inverse_of(o2, p2, n),
        0 <= at,
        at + 1 < n,
        p2 == p.update(o[at] as int, (at + 1) as usize).update(o[at + 1] as int, at as usize),
    ensures
        before_in(o, o[at] as nat, o[at + 1] as nat),
        !before_in(o2, o[at] as nat, o[at + 1] as nat),
        before_in(o2, o[at + 1] as nat, o[at] as nat),
        !before_in(o, o[at + 1] as nat, o[at] as nat),
        forall|a: usize, b: usize|
            a < n && b < n && !((a == o[at] && b == o[at + 1]) || (a == o[at + 1] && b == o[at])) ==> (
            #[trigger] before_in(o2, a as nat, b as nat) == before_in(o, a as nat, b as nat)),
{
    lemma_before_pos(o, p, n);
    lemma_before_pos(o2, p2, n);
    let u = o[at];
    let v = o[at + 1];
    assert(p[u as int] == at && p[v as int] == at + 1);
    assert(u != v);
    assert(p2[u as int] == at + 1 && p2[v as int] == at);
    assert forall|a: usize, b: usize|
        a < n && b < n && !((a == u && b == v) || (a == v && b == u)) implies (#[trigger] before_in(
        o2,
        a as nat,
        b as nat,
    ) == before_in(o, a as nat, b as nat)) by {
        assert(o[p[a as int] as int] == a);
        assert(o[p[b as int] as int] == b);
    }
}

/// Two pairs of orders that place every two nodes alike, but for `lo` and
/// `hi`, differ in their counts only by what they count at that pair.
proof fn lemma_swap_count(
    ps: Seq<(usize, usize)>,
    n: nat,
    o0: Seq<usize>,
    o1: Seq<usize>,
    q0: Seq<usize>,
    q1: Seq<usize>,
    k: int,
)
    requires
        forall|i: int| 0 <= i < ps.len() ==> (#[trigger] ps[i]).0 < ps[i].1 && ps[i].1 < n,
        ps.no_duplicates(),
        0 <= k < ps.len(),
        forall|a: usize, b: usize|
            a < n && b < n && !((a == ps[k].0 && b == ps[k].1) || (a == ps[k].1 && b == ps[k].0)) ==> (
            #[trigger] before_in(q0, a as nat, b as nat) == before_in(o0, a as nat, b as nat)),
        forall|a: usize, b: usize|
            a < n && b < n && !((a == ps[k].0 && b == ps[k].1) || (a == ps[k].1 && b == ps[k].0)) ==> (
            #[trigger] before_in(q1, a as nat, b as nat) == before_in(o1, a as nat, b as nat)),
    ensures
        agreement_count(ps, q0, q1) - agreement_count(ps, o0, o1) == (if agrees(q0, q1, ps[k]) {
            1int
        } else {
            0int
        }) - (if agrees(o0, o1, ps[k]) {
            1int
        } else {
            0int
        }),
{
    assert forall|i: int| 0 <= i < ps.len() && i != k implies agrees(o0, o1, #[trigger] ps[i]) == agrees(
        q0,
        q1,
        ps[i],
    ) by {
        assert(ps[i] != ps[k]);
        assert(before_in(q0, ps[i].0 as nat, ps[i].1 as nat) == before_in(o0, ps[i].0 as nat, ps[i].1 as nat));
        assert(before_in(q1, ps[i].0 as nat, ps[i].1 as nat) == before_in(o1, ps[i].0 as nat, ps[i].1 as nat));
    }
    lemma_count_change(ps, o0, o1, q0, q1, k);
}

proof fn lemma_count_symmetric(ps: Seq<(usize, usize)>, a: Seq<usize>, b: Seq<usize>)
    ensures
        agreement_count(ps, a, b) == agreement_count(ps, b, a),
    decreases ps.len(),
{
    if ps.len() > 0 {
        lemma_count_symmetric(ps.drop_last(), a, b);
    }
}

/// Swapping the incomparable adjacent nodes at `at` and `at + 1` of `so`
/// keeps it a linear extension and changes its count of agreements with
/// `other` by one: down if the two agreed on the swapped nodes, up if not.
proof fn lemma_swap_step(
    m: Seq<u64>,
    words: nat,
    n: nat,
    ps: Seq<(usize, usize)>,
    so: Seq<usize>,
    sp: Seq<usize>,
    so2: Seq<usize>,
    sp2: Seq<usize>,
    other: Seq<usize>,
    other_pos: Seq<usize>,
    at: int,
)
    requires
        0 <= at,
        at + 1 < n,
        ps.no_duplicates(),
        forall|i: int| 0 <= i < ps.len() ==> (#[trigger] ps[i]).0 < ps[i].1 && ps[i].1 < n,
        forall|p: (usize, usize)|
            #[trigger] ps.contains(p) <==> (p.0 < p.1 < n && crate::dimdraw::incomparable(m, words, p.0 as nat, p.1 as nat)),
        inverse_of(so, sp, n),
        inverse_of(so2, sp2, n),
        inverse_of(other, other_pos, n),
        respects_order(m, words, n, so),
        sp2 == sp.update(so[at] as int, (at + 1) as usize).update(so[at + 1] as int, at as usize),
        so2 == so.update(at, so[at + 1]).update(at + 1, so[at]),
        !matrix_bit(m, words, so[at] as nat, so[at + 1] as nat),
        !matrix_bit(m, words, so[at + 1] as nat, so[at] as nat),
    ensures
        respects_order(m, words, n, so2),
        agreement_count(ps, so2, other) + (if (sp[so[at] as int] < sp[so[at + 1] as int]) == (other_pos[so[at] as int]
            < other_pos[so[at + 1] as int]) {
            1int
        } else {
            -1int
        }) == agreement_count(ps, so, other),
{
    let u = so[at];
    let v = so[at + 1];
    lemma_swap_effect(so, sp, so2, sp2, n, at);
    lemma_swap_respects(m, words, n, so, at);
    lemma_before_pos(other, other_pos, n);
    lemma_before_pos(so, sp, n);
    let lo = if u < v { u } else { v };
    let hi = if u < v { v } else { u };
    assert(ps.contains((lo, hi)));
    let k = choose|k: int| 0 <= k < ps.len() && ps[k] == (lo, hi);
    lemma_swap_count(ps, n, so, other, so2, other, k);
}

/// Swaps the incomparable adjacent nodes at `at` and `at + 1` of one of
/// the two extensions and brings the count of agreements up to date: one
/// less if they agreed on the swapped pair, one more if not.
fn swap_and_count(
    order0: &mut Vec<usize>,
    pos0: &mut Vec<usize>,
    order1: &mut Vec<usize>,
    pos1: &mut Vec<usize>,
    cost: &mut u32,
    side: u64,
    at: usize,
    agreed: bool,
    Ghost(m): Ghost<Seq<u64>>,
    Ghost(words): Ghost<nat>,
    Ghost(n): Ghost<nat>,
    Ghost(ps): Ghost<Seq<(usize, usize)>>,
)
    requires
        n <= usize::MAX,
        at + 1 < n,
        ps.len() < u32::MAX,
        ps.no_duplicates(),
        forall|i: int| 0 <= i < ps.len() ==> (#[trigger] ps[i]).0 < ps[i].1 && ps[i].1 < n,
        forall|p: (usize, usize)|
            #[trigger] ps.contains(p) <==> (p.0 < p.1 < n && crate::dimdraw::incomparable(m, words, p.0 as nat, p.1 as nat)),
        inverse_of(old(order0)@, old(pos0)@, n),
        inverse_of(old(order1)@, old(pos1)@, n),
        respects_order(m, words, n, old(order0)@),
        respects_order(m, words, n, old(order1)@),
        *old(cost) == agreement_count(ps, old(order0)@, old(order1)@),
        ({
            let so = if side == 0 { old(order0)@ } else { old(order1)@ };
            let u = so[at as int];
            let v = so[at + 1];
            &&& !matrix_bit(m, words, u as nat, v as nat)
            &&& !matrix_bit(m, words, v as nat, u as nat)
            &&& agreed == ((old(pos0)@[u as int] < old(pos0)@[v as int]) == (old(pos1)@[u as int] < old(pos1)@[v as int]))
        }),
    ensures
        inverse_of(final(order0)@, final(pos0)@, n),
        inverse_of(final(order1)@, final(pos1)@, n),
        respects_order(m, words, n, final(order0)@),
        respects_order(m, words, n, final(order1)@),
        *final(cost) == agreement_count(ps, final(order0)@, final(order1)@),
        *final(cost) == (if agreed {
            *old(cost) - 1
        } else {
            *old(cost) + 1
        }),
        side == 0 ==> final(order0)@ == old(order0)@.update(at as int, old(order0)@[at + 1]).update(
            at + 1,
            old(order0)@[at as int],
        ) && final(order1)@ == old(order1)@ && final(pos1)@ == old(pos1)@,
        side != 0 ==> final(order1)@ == old(order1)@.update(at as int, old(order1)@[at + 1]).update(
            at + 1,
            old(order1)@[at as int],
        ) && final(order0)@ == old(order0)@ && final(pos0)@ == old(pos0)@,
{
    let ghost o0 = order0@;
    let ghost o1 = order1@;
    let ghost p0 = pos0@;
    let ghost p1 = pos1@;
    if side == 0 {
        swap_adjacent(order0, pos0, at, Ghost(n));
        proof {
            lemma_swap_step(m, words, n, ps, o0, p0, order0@, pos0@, o1, p1, at as int);
            lemma_count_bound(ps, order0@, order1@);
        }
    } else {
        swap_adjacent(order1, pos1, at, Ghost(n));
        proof {
            lemma_swap_step(m, words, n, ps, o1, p1, order1@, pos1@, o0, p0, at as int);
            lemma_count_symmetric(ps, o0, o1);
            lemma_count_symmetric(ps, order0@, order1@);
            lemma_count_bound(ps, order0@, order1@);
        }
    }
    *cost = if agreed {
        *cost - 1
    } else {
        *cost + 1
    };
}

/// The best pair met so far: two linear extensions and their count.
pub open spec fn best_ok(
    m: Seq<u64>,
    words: nat,
    n: nat,
    pairs: Seq<(usize, usize)>,
    first: Seq<usize>,
    second: Seq<usize>,
    cost: u32,
) -> bool {
    &&& is_linear_extension(m, words, n, first)
    &&& is_linear_extension(m, words, n, second)
    &&& cost == agreement_count(pairs, first, second)
}

/// Anneals a pair of linear extensions towards few agreements on the
/// incomparable pairs. Each of `ANNEAL_RESTARTS` rounds starts from two
/// random linear extensions and, for a number of steps, swaps two random
/// adjacent nodes of one of them if they are incomparable: always when that
/// removes an agreement, and when it adds one only if `accept_uphill`
/// accepts, given the step, the steps of a round and a random 53-bit draw.
/// `deadline` is asked every 4096 steps and after each round; when it says
/// the time is up, the annealing stops. Returns the best pair met and its
/// number of agreements.
pub fn anneal<A: Fn(u64, u64, u64) -> bool, D: Fn() -> bool>(
    setup: &SearchSetup,
    accept_uphill: &A,
    deadline: &D,
) -> (r: (Vec<usize>, Vec<usize>, u32))
    requires
        setup.wf(),
        forall|step: u64, steps: u64, draw: u64| #[trigger] accept_uphill.requires((step, steps, draw)),
        deadline.requires(()),
    ensures
        best_ok(setup.closure@, setup.words as nat, setup.node_count as nat, setup.pairs@, r.0@, r.1@, r.2),
{
    let n = setup.node_count;
    let words = setup.words;
    let ghost m = setup.closure@;
    let ghost ps = setup.pairs@;
    proof {
        assert(n * n <= 64 * (n * words)) by (nonlinear_arith)
            requires
                n <= 64 * words,
        ;
    }
    let steps_per_restart: u64 = ANNEAL_STEPS_PER_NODE_SQUARED * ((n * n) as u64);
    let mut rng = Rng(ANNEAL_SEED);
    let mut best0: Vec<usize> = Vec::new();
    let mut best1: Vec<usize> = Vec::new();
    let mut best_cost: u32 = u32::MAX;
    let mut restart: usize = 0;
    loop
        invariant
            setup.wf(),
            n == setup.node_count,
            words == setup.words,
            m == setup.closure@,
            ps == setup.pairs@,
            ps.len() < u32::MAX,
            forall|step: u64, steps: u64, draw: u64| #[trigger] accept_uphill.requires((step, steps, draw)),
            deadline.requires(()),
            restart <= ANNEAL_RESTARTS,
            restart == 0 ==> best_cost == u32::MAX,
            restart > 0 ==> best_ok(m, words as nat, n as nat, ps, best0@, best1@, best_cost),
        ensures
            best_ok(m, words as nat, n as nat, ps, best0@, best1@, best_cost),
        decreases ANNEAL_RESTARTS - restart,
    {
        if restart >= ANNEAL_RESTARTS {
            break;
        }
        let mut order0 = random_linear_extension(n, words, setup.closure.as_slice(), &mut rng);
        let mut order1 = random_linear_extension(n, words, setup.closure.as_slice(), &mut rng);
        let mut pos0 = positions_of(&order0, n);
        let mut pos1 = positions_of(&order1, n);
        let mut cost = count_agreements(&setup.pairs, &pos0, &pos1, Ghost(order0@), Ghost(order1@), n);
        proof {
            lemma_count_bound(ps, order0@, order1@);
        }
        if cost < best_cost {
            best0 = copy_order(&order0);
            best1 = copy_order(&order1);
            best_cost = cost;
        }
        let mut step: u64 = 0;
        while step < steps_per_restart
            invariant
                setup.wf(),
                n == setup.node_count,
                words == setup.words,
                m == setup.closure@,
                ps == setup.pairs@,
                ps.len() < u32::MAX,
                forall|step: u64, steps: u64, draw: u64| #[trigger] accept_uphill.requires((step, steps, draw)),
                deadline.requires(()),
                inverse_of(order0@, pos0@, n as nat),
                inverse_of(order1@, pos1@, n as nat),
                respects_order(m, words as nat, n as nat, order0@),
                respects_order(m, words as nat, n as nat, order1@),
                cost == agreement_count(ps, order0@, order1@),
                best_ok(m, words as nat, n as nat, ps, best0@, best1@, best_cost),
            decreases steps_per_restart - step,
        {
            if step % 4096 == 0 && deadline() {
                break;
            }
            let side = rng.next_u64() & 1;
            let at = rng.below(n - 1);
            let u = if side == 0 {
                order0[at]
            } else {
                order1[at]
            };
            let v = if side == 0 {
                order0[at + 1]
            } else {
                order1[at + 1]
            };
            proof {
                crate::dimdraw::lemma_index(u as nat, (v / 64) as nat, words as nat, n as nat);
                crate::dimdraw::lemma_index(v as nat, (u / 64) as nat, words as nat, n as nat);
            }
            let comparable = reaches(setup.closure.as_slice(), words, u, v) || reaches(
                setup.closure.as_slice(),
                words,
                v,
                u,
            );
            if !comparable {
                let agreed = if side == 0 {
                    (pos0[u] < pos0[v]) == (pos1[u] < pos1[v])
                } else {
                    (pos1[u] < pos1[v]) == (pos0[u] < pos0[v])
                };
                let accept = if agreed {
                    true
                } else {
                    let draw = rng.next_u64() >> 11;
                    accept_uphill(step, steps_per_restart, draw)
                };
                if accept {
                    proof {
                        assert forall|i: int| 0 <= i < ps.len() implies (#[trigger] ps[i]).0 < ps[i].1 && ps[i].1 < n by {
                            assert(ps.contains(ps[i]));
                        }
                    }
                    swap_and_count(
                        &mut order0,
                        &mut pos0,
                        &mut order1,
                        &mut pos1,
                        &mut cost,
                        side,
                        at,
                        agreed,
                        Ghost(m),
                        Ghost(words as nat),
                        Ghost(n as nat),
                        Ghost(ps),
                    );
                    if cost < best_cost {
                        best0 = copy_order(&order0);
                        best1 = copy_order(&order1);
                        best_cost = cost;
                    }
                }
            }
            step = step + 1;
        }
        restart = restart + 1;
        if deadline() {
            break;
        }
    }
    (best0, best1, best_cost)
}

/// The exact search, seeded with the annealing's pair: the pair is the
/// incumbent the search starts from, and its count of agreements, the
/// baseline, is returned beside the search's result. Seeded, the search
/// takes the baseline as the bound to beat; unseeded, it starts from a
/// bound no solution reaches. Both run against the clock started here, on
/// `budget`.
pub fn search_with_incumbent<A: Fn(u64, u64, u64) -> bool>(
    setup: &SearchSetup,
    seed_from_annealing: bool,
    budget: SearchBudget,
    accept_uphill: &A,
) -> (r: (SearchResult, u32))
    requires
        setup.wf(),
        forall|step: u64, steps: u64, draw: u64| #[trigger] accept_uphill.requires((step, steps, draw)),
    ensures
        exists|first: Seq<usize>, second: Seq<usize>|
            #![trigger agreement_count(setup.pairs@, first, second)]
            best_ok(setup.closure@, setup.words as nat, setup.node_count as nat, setup.pairs@, first, second, r.1),
        r.0.best_cost <= if seed_from_annealing {
            r.1 as int
        } else {
            setup.pairs@.len() + 1int
        },
        budget is Unbounded ==> !r.0.timed_out,
        (match budget {
            SearchBudget::Milliseconds(ms) => ms == 0,
            SearchBudget::Unbounded => false,
        }) ==> r.0.timed_out && r.0.explored_nodes == 0 && r.0.best_cost == if seed_from_annealing {
            r.1 as int
        } else {
            setup.pairs@.len() + 1int
        },
        r.0.heights_first@.len() == setup.node_count,
        r.0.heights_second@.len() == setup.node_count,
        forall|u: int| 0 <= u < setup.node_count ==> #[trigger] r.0.heights_first@[u] == height_of(
            r.0.best@,
            setup.node_count as nat,
            setup.words as nat,
            0,
            u as nat,
        ),
        forall|u: int| 0 <= u < setup.node_count ==> #[trigger] r.0.heights_second@[u] == height_of(
            r.0.best@,
            setup.node_count as nat,
            setup.words as nat,
            1,
            u as nat,
        ),
{
    let start_time = crate::clock::now();
    let limit_ms = budget.limit_ms();
    let time_is_up = || {
        match limit_ms {
            Some(ms) => crate::clock::expired(&start_time, ms),
            None => false,
        }
    };
    let (first, second, baseline_cost) = anneal(setup, accept_uphill, &time_is_up);
    let result = run_search(
        setup,
        first.as_slice(),
        second.as_slice(),
        baseline_cost,
        seed_from_annealing,
        budget,
        start_time,
    );
    assert(best_ok(setup.closure@, setup.words as nat, setup.node_count as nat, setup.pairs@, first@, second@, baseline_cost));
    (result, baseline_cost)
}

} // verus!
