//! The integer core of the DimDraw lattice drawing: the order as a bit
//! matrix, its incomparable pairs, its linear extensions and automorphisms,
//! and the branch-and-bound over pairs of linear extensions.
//!
//! A drawing reads two linear extensions off as coordinates; the fewer pairs
//! the order leaves incomparable but both extensions put the same way round
//! (agreements), the better the drawing.
use crate::bitset::BitSet;
use crate::poset::{acyclic, edges_in_range, kahn_topo_sort, reachability, reaches as walk_reaches};
use crate::search_budget::SearchBudget;
use vstd::prelude::*;

verus! {

/// Exact branch-and-bound lattice drawing algorithm, bounded by its
/// [`SearchBudget`]. Running out of budget is no failure: the best solution
/// found so far is used.
#[derive(Clone, Copy, Debug)]
pub struct DimDraw {
    /// How long the search may run.
    pub budget: SearchBudget,
}

impl Default for DimDraw {
    fn default() -> (r: Self)
        ensures
            r.budget == SearchBudget::Milliseconds(crate::search_budget::DEFAULT_SEARCH_BUDGET_MS),
    {
        DimDraw { budget: SearchBudget::default() }
    }
}

// ---- the generator ----------------------------------------------------------

/// One step of xorshift64: `x ^= x << 13; x ^= x >> 7; x ^= x << 17`.
pub open spec fn xorshift(x: u64) -> u64 {
    let a = x ^ (x << 13u64);
    let b = a ^ (a >> 7u64);
    b ^ (b << 17u64)
}

/// Deterministic xorshift64 generator: the annealing must be reproducible.
pub struct Rng(pub u64);

impl Rng {
    /// Advances the state and returns it.
    pub fn next_u64(&mut self) -> (r: u64)
        ensures
            r == xorshift(old(self).0),
            final(self).0 == r,
    {
        let mut x = self.0;
        x ^= x << 13u64;
        x ^= x >> 7u64;
        x ^= x << 17u64;
        self.0 = x;
        x
    }

    /// A number below `n`, from the next state.
    pub fn below(&mut self, n: usize) -> (r: usize)
        requires
            n > 0,
        ensures
            r < n,
            r == xorshift(old(self).0) % (n as u64),
            final(self).0 == xorshift(old(self).0),
    {
        let x = self.next_u64();
        (x % (n as u64)) as usize
    }
}

// ---- bit matrices -----------------------------------------------------------

/// Bit `b` of `w`.
pub open spec fn word_bit(w: u64, b: u64) -> bool {
    (w >> b) & 1u64 == 1u64
}

/// Bit `v` of row `u` in a matrix of `words` words per row.
pub open spec fn matrix_bit(m: Seq<u64>, words: nat, u: nat, v: nat) -> bool {
    word_bit(m[(u * words + v / 64) as int], (v % 64) as u64)
}

/// `m` is a matrix of `n` rows of `words` words, wide enough for `n` columns.
pub open spec fn matrix_shape(m: Seq<u64>, n: nat, words: nat) -> bool {
    &&& m.len() == n * words
    &&& n <= 64 * words
}

pub(crate) proof fn lemma_word_bit_or(w: u64, b: u64, j: u64)
    requires
        b < 64,
        j < 64,
    ensures
        word_bit(w | (1u64 << b), j) == (j == b || word_bit(w, j)),
{
    assert(((w | (1u64 << b)) >> j) & 1u64 == 1u64 <==> (j == b || (w >> j) & 1u64 == 1u64))
        by (bit_vector)
        requires
            b < 64,
            j < 64,
    ;
}

proof fn lemma_word_bit_zero(j: u64)
    requires
        j < 64,
    ensures
        !word_bit(0u64, j),
{
    assert((0u64 >> j) & 1u64 != 1u64) by (bit_vector)
        requires
            j < 64,
    ;
}

/// Row `u`, word `w` lies inside an `n`-row matrix, and no other row and
/// word share its position.
pub(crate) proof fn lemma_index(u: nat, w: nat, words: nat, n: nat)
    requires
        u < n,
        w < words,
    ensures
        u * words + w < n * words,
        forall|u2: nat, w2: nat|
            w2 < words && #[trigger] (u2 * words + w2) == u * words + w ==> u2 == u && w2 == w,
{
    assert(u * words + w < n * words) by (nonlinear_arith)
        requires
            u < n,
            w < words,
    ;
    assert forall|u2: nat, w2: nat|
        w2 < words && #[trigger] (u2 * words + w2) == u * words + w implies u2 == u && w2 == w by {
        assert(u2 == u) by (nonlinear_arith)
            requires
                w2 < words,
                w < words,
                u2 * words + w2 == u * words + w,
        ;
    }
}

/// Reads bit `v` of row `u`.
pub fn get_bit(m: &[u64], words: usize, u: usize, v: usize) -> (r: bool)
    requires
        (u * words + v / 64) < m@.len(),
    ensures
        r == matrix_bit(m@, words as nat, u as nat, v as nat),
{
    let len = m.len();
    assert(u * words <= u * words + v / 64);
    let i = u * words + v / 64;
    (m[i] >> ((v % 64) as u64)) & 1u64 == 1u64
}

/// Sets bit `v` of row `u` in an `n`-row matrix.
fn set_bit(m: &mut Vec<u64>, n: Ghost<nat>, words: usize, u: usize, v: usize)
    requires
        matrix_shape(old(m)@, n@, words as nat),
        u < n@,
        v < 64 * words,
    ensures
        matrix_shape(final(m)@, n@, words as nat),
        forall|a: nat, b: nat|
            a < n@ && b < 64 * words ==> (#[trigger] matrix_bit(final(m)@, words as nat, a, b) == ((a
                == u && b == v) || matrix_bit(old(m)@, words as nat, a, b))),
{
    proof {
        lemma_index(u as nat, (v / 64) as nat, words as nat, n@);
    }
    let len = m.len();
    assert(u * words <= u * words + v / 64);
    let i = u * words + v / 64;
    let b = (v % 64) as u64;
    let w = m[i] | (1u64 << b);
    let ghost before = m@;
    m.set(i, w);
    proof {
        assert forall|a: nat, c: nat| a < n@ && c < 64 * words implies (#[trigger] matrix_bit(
            m@,
            words as nat,
            a,
            c,
        ) == ((a == u && c == v) || matrix_bit(before, words as nat, a, c))) by {
            lemma_index(a, c / 64, words as nat, n@);
            if a * words + c / 64 == i {
                assert(a == u && c / 64 == v / 64);
                lemma_word_bit_or(before[i as int], b, (c % 64) as u64);
                assert((c == v) <==> (c % 64 == v % 64));
            }
        }
    }
}

/// An `n`-row matrix of zeros.
fn zero_matrix(n: usize, words: usize) -> (m: Vec<u64>)
    requires
        n <= 64 * words,
        n * words <= usize::MAX,
    ensures
        matrix_shape(m@, n as nat, words as nat),
        forall|a: nat, b: nat| a < n && b < 64 * words ==> !#[trigger] matrix_bit(m@, words as nat, a, b),
{
    let len = n * words;
    let mut m: Vec<u64> = Vec::new();
    let mut i: usize = 0;
    while i < len
        invariant
            i <= len,
            m@.len() == i,
            forall|x: int| 0 <= x < i ==> #[trigger] m@[x] == 0u64,
        decreases len - i,
    {
        m.push(0u64);
        i = i + 1;
    }
    proof {
        assert forall|a: nat, b: nat| a < n && b < 64 * words implies !#[trigger] matrix_bit(
            m@,
            words as nat,
            a,
            b,
        ) by {
            lemma_index(a, b / 64, words as nat, n as nat);
            lemma_word_bit_zero((b % 64) as u64);
        }
    }
    m
}

// ---- the order --------------------------------------------------------------

/// Transitive closure of the covering relation as a bit matrix, or `None`
/// if an edge leaves the `node_count` nodes or the edges are cyclic.
pub fn transitive_closure(node_count: usize, words: usize, edges: &[(u32, u32)]) -> (r: Option<Vec<u64>>)
    requires
        node_count <= 64 * words,
        node_count * words <= usize::MAX,
    ensures
        match r {
            None => !edges_in_range(node_count as nat, edges@) || !acyclic(node_count as nat, edges@),
            Some(c) => {
                &&& edges_in_range(node_count as nat, edges@)
                &&& acyclic(node_count as nat, edges@)
                &&& matrix_shape(c@, node_count as nat, words as nat)
                &&& forall|u: nat, v: nat|
                    u < node_count && v < 64 * words ==> (#[trigger] matrix_bit(c@, words as nat, u, v) <==> (v
                        < node_count && walk_reaches(edges@, u as int, v as int)))
            },
        },
{
    let mut k: usize = 0;
    while k < edges.len()
        invariant
            k <= edges@.len(),
            forall|x: int| 0 <= x < k ==> #[trigger] edges@[x].0 < node_count && edges@[x].1 < node_count,
        decreases edges@.len() - k,
    {
        let (u, v) = edges[k];
        if u as usize >= node_count || v as usize >= node_count {
            return None;
        }
        k = k + 1;
    }
    assert(edges_in_range(node_count as nat, edges@));
    let topo = match kahn_topo_sort(node_count, edges) {
        Some(t) => t,
        None => return None,
    };
    let reach = reachability(node_count, edges, topo.as_slice());
    let mut closure = zero_matrix(node_count, words);
    let ghost n = node_count as nat;
    let mut i: usize = 0;
    while i < node_count
        invariant
            n == node_count,
            node_count <= 64 * words,
            reach@.len() == node_count,
            forall|u: int, v: usize| 0 <= u < node_count ==> (#[trigger] reach@[u]@.contains(v) <==> walk_reaches(edges@, u, v as int)),
            matrix_shape(closure@, n, words as nat),
            i <= node_count,
            forall|a: nat, b: nat|
                a < n && b < 64 * words ==> (#[trigger] matrix_bit(closure@, words as nat, a, b) <==> (a < i
                    && b < n && walk_reaches(edges@, a as int, b as int))),
        decreases node_count - i,
    {
        let mut j: usize = 0;
        while j < node_count
            invariant
                n == node_count,
                node_count <= 64 * words,
                reach@.len() == node_count,
                forall|u: int, v: usize| 0 <= u < node_count ==> (#[trigger] reach@[u]@.contains(v) <==> walk_reaches(edges@, u, v as int)),
                matrix_shape(closure@, n, words as nat),
                i < node_count,
                j <= node_count,
                forall|a: nat, b: nat|
                    a < n && b < 64 * words ==> (#[trigger] matrix_bit(closure@, words as nat, a, b) <==> ((a < i
                        && b < n && walk_reaches(edges@, a as int, b as int)) || (a == i && b < j
                        && walk_reaches(edges@, a as int, b as int)))),
            decreases node_count - j,
        {
            let present = reach[i].contains(j);
            assert(reach@[i as int]@.contains(j) <==> walk_reaches(edges@, i as int, j as int));
            assert(present == walk_reaches(edges@, i as int, j as int));
            let ghost before = closure@;
            if present {
                set_bit(&mut closure, Ghost(n), words, i, j);
            }
            assert forall|a: nat, b: nat| a < n && b < 64 * words implies (#[trigger] matrix_bit(
                closure@,
                words as nat,
                a,
                b,
            ) <==> ((a < i && b < n && walk_reaches(edges@, a as int, b as int)) || (a == i && b < j + 1
                && walk_reaches(edges@, a as int, b as int)))) by {
                if !present {
                    assert(matrix_bit(closure@, words as nat, a, b) == matrix_bit(before, words as nat, a, b));
                }
            }
            j = j + 1;
        }
        i = i + 1;
    }
    Some(closure)
}

/// `u` is below `v` in the closure.
pub fn reaches(closure: &[u64], words: usize, u: usize, v: usize) -> (r: bool)
    requires
        (u * words + v / 64) < closure@.len(),
    ensures
        r == matrix_bit(closure@, words as nat, u as nat, v as nat),
{
    get_bit(closure, words, u, v)
}

// ---- linear orders ------------------------------------------------------------

/// `a` comes before `b` in `order`.
pub open spec fn before_in(order: Seq<usize>, a: nat, b: nat) -> bool {
    exists|i: int, j: int| 0 <= i < j < order.len() && order[i] == a && order[j] == b
}

/// Turns a linear order into a successor bit matrix: bit `v` of row `u` is
/// set exactly when `u` comes before `v`.
pub fn linear_order_matrix(order: &[usize], node_count: usize, words: usize) -> (m: Vec<u64>)
    requires
        node_count <= 64 * words,
        node_count * words <= usize::MAX,
        forall|i: int| 0 <= i < order@.len() ==> #[trigger] order@[i] < node_count,
    ensures
        matrix_shape(m@, node_count as nat, words as nat),
        forall|a: nat, b: nat|
            a < node_count && b < 64 * words ==> (#[trigger] matrix_bit(m@, words as nat, a, b)
                <==> before_in(order@, a, b)),
{
    let mut matrix = zero_matrix(node_count, words);
    let ghost n = node_count as nat;
    let mut i: usize = 0;
    while i < order.len()
        invariant
            n == node_count,
            node_count <= 64 * words,
            forall|x: int| 0 <= x < order@.len() ==> #[trigger] order@[x] < node_count,
            matrix_shape(matrix@, n, words as nat),
            i <= order@.len(),
            forall|a: nat, b: nat|
                a < n && b < 64 * words ==> (#[trigger] matrix_bit(matrix@, words as nat, a, b) <==> exists|
                    x: int,
                    y: int,
                | 0 <= x < y < order@.len() && x < i && order@[x] == a && order@[y] == b),
        decreases order@.len() - i,
    {
        let u = order[i];
        let mut j: usize = i + 1;
        while j < order.len()
            invariant
                n == node_count,
                node_count <= 64 * words,
                forall|x: int| 0 <= x < order@.len() ==> #[trigger] order@[x] < node_count,
                matrix_shape(matrix@, n, words as nat),
                i < order@.len(),
                u == order@[i as int],
                i + 1 <= j <= order@.len(),
                forall|a: nat, b: nat|
                    a < n && b < 64 * words ==> (#[trigger] matrix_bit(matrix@, words as nat, a, b) <==> ((exists|
                        x: int,
                        y: int,
                    | 0 <= x < y < order@.len() && x < i && order@[x] == a && order@[y] == b) || (a == u
                        && exists|y: int| i < y < j && order@[y] == b))),
            decreases order@.len() - j,
        {
            let v = order[j];
            let ghost before = matrix@;
            set_bit(&mut matrix, Ghost(n), words, u, v);
            proof {
                assert forall|a: nat, b: nat| a < n && b < 64 * words implies (#[trigger] matrix_bit(
                    matrix@,
                    words as nat,
                    a,
                    b,
                ) <==> ((exists|x: int, y: int|
                    0 <= x < y < order@.len() && x < i && order@[x] == a && order@[y] == b) || (a == u
                    && exists|y: int| i < y < j + 1 && order@[y] == b))) by {
                    if a == u && b == v {
                        assert(order@[j as int] == b);
                    }
                    if a == u && (exists|y: int| i < y < j + 1 && order@[y] == b) && b != v {
                        let y = choose|y: int| i < y < j + 1 && order@[y] == b;
                        assert(y != j);
                    }
                }
            }
            j = j + 1;
        }
        proof {
            assert forall|a: nat, b: nat| a < n && b < 64 * words implies (#[trigger] matrix_bit(
                matrix@,
                words as nat,
                a,
                b,
            ) <==> exists|x: int, y: int|
                0 <= x < y < order@.len() && x < i + 1 && order@[x] == a && order@[y] == b) by {
                if exists|x: int, y: int|
                    0 <= x < y < order@.len() && x < i + 1 && order@[x] == a && order@[y] == b {
                    let (x, y) = choose|x: int, y: int|
                        0 <= x < y < order@.len() && x < i + 1 && order@[x] == a && order@[y] == b;
                    if x == i {
                        assert(i < y < order@.len() && order@[y] == b);
                    }
                }
                if a == u && exists|y: int| i < y < order@.len() && order@[y] == b {
                    let y = choose|y: int| i < y < order@.len() && order@[y] == b;
                    assert(0 <= i < y < order@.len() && order@[i as int] == a && order@[y] == b);
                }
            }
        }
        i = i + 1;
    }
    matrix
}

// ---- incomparable pairs ---------------------------------------------------------

/// Neither of `u` and `v` is above the other.
pub open spec fn incomparable(m: Seq<u64>, words: nat, u: nat, v: nat) -> bool {
    !matrix_bit(m, words, u, v) && !matrix_bit(m, words, v, u)
}

/// The incomparable pairs `(u, v)`, `u < v < k`, in order of `v`.
pub open spec fn incomparable_row(m: Seq<u64>, words: nat, u: nat, k: nat) -> Seq<(usize, usize)>
    decreases k,
{
    if k <= u + 1 {
        Seq::empty()
    } else {
        let r = incomparable_row(m, words, u, (k - 1) as nat);
        if incomparable(m, words, u, (k - 1) as nat) {
            r.push((u as usize, (k - 1) as usize))
        } else {
            r
        }
    }
}

/// The incomparable pairs `(u, v)`, `u < v < n`, `u` below `k`, row by row.
pub open spec fn incomparable_upto(m: Seq<u64>, words: nat, n: nat, k: nat) -> Seq<(usize, usize)>
    decreases k,
{
    if k == 0 {
        Seq::empty()
    } else {
        incomparable_upto(m, words, n, (k - 1) as nat) + incomparable_row(m, words, (k - 1) as nat, n)
    }
}

/// How many of the nodes `0..k` other than `x` are incomparable with `x`.
pub open spec fn incomparable_degree(m: Seq<u64>, words: nat, x: nat, k: nat) -> nat
    decreases k,
{
    if k == 0 {
        0
    } else {
        incomparable_degree(m, words, x, (k - 1) as nat) + if (k - 1) != x && incomparable(
            m,
            words,
            x,
            (k - 1) as nat,
        ) {
            1nat
        } else {
            0nat
        }
    }
}

/// The order in which the search takes the pairs: the more incomparable
/// partners the two nodes have, the earlier, ties in row order.
pub open spec fn pair_priority(m: Seq<u64>, words: nat, n: nat, p: (usize, usize)) -> int {
    -(incomparable_degree(m, words, p.0 as nat, n) * incomparable_degree(m, words, p.1 as nat, n))
}

/// The incomparable pairs `(u, v)`, `u < v`, most constrained first.
pub open spec fn incomparable_pairs_spec(m: Seq<u64>, words: nat, n: nat) -> Seq<(usize, usize)> {
    let list = incomparable_upto(m, words, n, n);
    let keys = list.map_values(|p: (usize, usize)| pair_priority(m, words, n, p));
    let perm = crate::formal_context::sort_by_key(keys, list.len());
    Seq::new(list.len(), |i: int| list[perm[i]])
}

proof fn lemma_row_range(m: Seq<u64>, words: nat, u: nat, k: nat)
    requires
        k <= usize::MAX,
    ensures
        forall|t: int|
            0 <= t < incomparable_row(m, words, u, k).len() ==> (#[trigger] incomparable_row(m, words, u, k)[t]).0
                == u && incomparable_row(m, words, u, k)[t].1 < k && u < incomparable_row(m, words, u, k)[t].1,
    decreases k,
{
    if k > u + 1 {
        lemma_row_range(m, words, u, (k - 1) as nat);
        let r = incomparable_row(m, words, u, (k - 1) as nat);
        let s = incomparable_row(m, words, u, k);
        assert forall|t: int| 0 <= t < s.len() implies (#[trigger] s[t]).0 == u && s[t].1 < k && u < s[t].1 by {
            if t < r.len() {
                assert(s[t] == r[t]);
            } else {
                assert(s[t] == (u as usize, (k - 1) as usize));
            }
        }
    }
}

proof fn lemma_upto_range(m: Seq<u64>, words: nat, n: nat, k: nat)
    requires
        k <= n,
        n <= usize::MAX,
    ensures
        forall|t: int|
            0 <= t < incomparable_upto(m, words, n, k).len() ==> (#[trigger] incomparable_upto(m, words, n, k)[t]).0
                < incomparable_upto(m, words, n, k)[t].1 < n,
    decreases k,
{
    if k > 0 {
        lemma_upto_range(m, words, n, (k - 1) as nat);
        lemma_row_range(m, words, (k - 1) as nat, n);
        let a = incomparable_upto(m, words, n, (k - 1) as nat);
        let b = incomparable_row(m, words, (k - 1) as nat, n);
        assert forall|t: int| 0 <= t < (a + b).len() implies (#[trigger] (a + b)[t]).0 < (a + b)[t].1 < n by {
            if t < a.len() {
                assert((a + b)[t] == a[t]);
            } else {
                assert((a + b)[t] == b[t - a.len()]);
            }
        }
    }
}

proof fn lemma_degree_bound(m: Seq<u64>, words: nat, x: nat, k: nat)
    ensures
        incomparable_degree(m, words, x, k) <= k,
    decreases k,
{
    if k > 0 {
        lemma_degree_bound(m, words, x, (k - 1) as nat);
    }
}

/// The positions `0..keys.len()` ordered by decreasing key, ties in order.
fn order_by_decreasing(keys: &Vec<u64>) -> (r: Vec<usize>)
    ensures
        r@.map_values(|x: usize| x as int) == crate::formal_context::sort_by_key(
            keys@.map_values(|k: u64| -(k as int)),
            keys@.len(),
        ),
        forall|i: int| 0 <= i < r@.len() ==> #[trigger] r@[i] < keys@.len(),
{
    let ghost ks = keys@.map_values(|k: u64| -(k as int));
    let len = keys.len();
    let mut order: Vec<usize> = Vec::new();
    let mut k: usize = 0;
    while k < len
        invariant
            len == keys@.len(),
            ks == keys@.map_values(|k: u64| -(k as int)),
            k <= len,
            order@.len() == k,
            order@.map_values(|x: usize| x as int) == crate::formal_context::sort_by_key(ks, k as nat),
            forall|i: int| 0 <= i < k ==> #[trigger] order@[i] < k,
        decreases len - k,
    {
        let ghost p = order@.map_values(|x: usize| x as int);
        let key = keys[k];
        let mut j: usize = order.len();
        while j > 0 && keys[order[j - 1]] < key
            invariant
                len == keys@.len(),
                ks == keys@.map_values(|k: u64| -(k as int)),
                k < len,
                key == keys@[k as int],
                order@.len() == k,
                p == order@.map_values(|x: usize| x as int),
                forall|i: int| 0 <= i < k ==> #[trigger] order@[i] < k,
                j <= k,
                forall|i: int| j <= i < k ==> ks[#[trigger] p[i]] > ks[k as int],
            decreases j,
        {
            assert(p[j - 1] == order@[j - 1] as int);
            j = j - 1;
        }
        proof {
            if j > 0 {
                assert(p[j - 1] == order@[j - 1] as int);
            }
            crate::formal_context::lemma_insert_at(p, ks, k as int, j as int);
        }
        let ghost o0 = order@;
        order.insert(j, k);
        proof {
            assert(order@ == o0.insert(j as int, k));
            assert(order@.map_values(|x: usize| x as int) =~= p.insert(j as int, k as int));
            assert forall|i: int| 0 <= i < k + 1 implies #[trigger] order@[i] < k + 1 by {
                if i > j {
                    assert(order@[i] == o0[i - 1]);
                }
            }
        }
        k = k + 1;
    }
    order
}

/// Incomparable pairs, most constrained first.
pub fn incomparable_pairs(node_count: usize, words: usize, closure: &[u64]) -> (r: Vec<(usize, usize)>)
    requires
        matrix_shape(closure@, node_count as nat, words as nat),
        node_count <= u32::MAX,
    ensures
        r@ == incomparable_pairs_spec(closure@, words as nat, node_count as nat),
{
    let ghost m = closure@;
    let ghost n = node_count as nat;
    let mut pairs: Vec<(usize, usize)> = Vec::new();
    let mut u: usize = 0;
    while u < node_count
        invariant
            m == closure@,
            n == node_count,
            matrix_shape(m, n, words as nat),
            u <= node_count,
            pairs@ == incomparable_upto(m, words as nat, n, u as nat),
        decreases node_count - u,
    {
        let mut v: usize = u + 1;
        assert(incomparable_row(m, words as nat, u as nat, (u + 1) as nat) =~= Seq::<(usize, usize)>::empty());
        while v < node_count
            invariant
                m == closure@,
                n == node_count,
                matrix_shape(m, n, words as nat),
                u < node_count,
                u + 1 <= v <= node_count,
                pairs@ == incomparable_upto(m, words as nat, n, u as nat) + incomparable_row(
                    m,
                    words as nat,
                    u as nat,
                    v as nat,
                ),
            decreases node_count - v,
        {
            proof {
                lemma_index(u as nat, (v / 64) as nat, words as nat, n);
                lemma_index(v as nat, (u / 64) as nat, words as nat, n);
            }
            if !reaches(closure, words, u, v) && !reaches(closure, words, v, u) {
                pairs.push((u, v));
            }
            v = v + 1;
        }
        u = u + 1;
    }
    let ghost list = pairs@;
    proof {
        lemma_upto_range(m, words as nat, n, n);
    }
    // How many partners each node has.
    let mut degrees: Vec<u32> = Vec::new();
    let mut x: usize = 0;
    while x < node_count
        invariant
            m == closure@,
            n == node_count,
            node_count <= u32::MAX,
            matrix_shape(m, n, words as nat),
            x <= node_count,
            degrees@.len() == x,
            forall|y: int| 0 <= y < x ==> #[trigger] degrees@[y] as nat == incomparable_degree(m, words as nat, y as nat, n),
        decreases node_count - x,
    {
        let mut d: u32 = 0;
        let mut y: usize = 0;
        while y < node_count
            invariant
                m == closure@,
                n == node_count,
                node_count <= u32::MAX,
                matrix_shape(m, n, words as nat),
                x < node_count,
                y <= node_count,
                d as nat == incomparable_degree(m, words as nat, x as nat, y as nat),
            decreases node_count - y,
        {
            proof {
                lemma_index(x as nat, (y / 64) as nat, words as nat, n);
                lemma_index(y as nat, (x / 64) as nat, words as nat, n);
                lemma_degree_bound(m, words as nat, x as nat, y as nat);
            }
            if y != x && !reaches(closure, words, x, y) && !reaches(closure, words, y, x) {
                d = d + 1;
            }
            y = y + 1;
        }
        degrees.push(d);
        x = x + 1;
    }
    // Each pair's weight, then the pairs by decreasing weight.
    let mut keys: Vec<u64> = Vec::new();
    let mut i: usize = 0;
    while i < pairs.len()
        invariant
            m == closure@,
            n == node_count,
            node_count <= u32::MAX,
            pairs@ == list,
            list == incomparable_upto(m, words as nat, n, n),
            degrees@.len() == node_count,
            forall|y: int| 0 <= y < node_count ==> #[trigger] degrees@[y] as nat == incomparable_degree(m, words as nat, y as nat, n),
            forall|t: int| 0 <= t < list.len() ==> (#[trigger] list[t]).0 < n && list[t].1 < n,
            i <= pairs@.len(),
            keys@.len() == i,
            forall|t: int| 0 <= t < i ==> -(#[trigger] keys@[t] as int) == pair_priority(m, words as nat, n, list[t]),
        decreases pairs@.len() - i,
    {
        let (a, b) = pairs[i];
        let da = degrees[a] as u64;
        let db = degrees[b] as u64;
        assert(da * db <= u32::MAX * u32::MAX) by (nonlinear_arith)
            requires
                da <= u32::MAX,
                db <= u32::MAX,
        ;
        keys.push(da * db);
        i = i + 1;
    }
    let order = order_by_decreasing(&keys);
    proof {
        assert(keys@.map_values(|k: u64| -(k as int)) =~= list.map_values(
            |p: (usize, usize)| pair_priority(m, words as nat, n, p),
        ));
        crate::formal_context::lemma_sort_by_key(keys@.map_values(|k: u64| -(k as int)), list.len());
    }
    let mut out: Vec<(usize, usize)> = Vec::new();
    let mut t: usize = 0;
    while t < order.len()
        invariant
            pairs@ == list,
            order@.len() == list.len(),
            forall|s: int| 0 <= s < order@.len() ==> #[trigger] order@[s] < list.len(),
            t <= order@.len(),
            out@ =~= Seq::new(t as nat, |s: int| list[order@[s] as int]),
        decreases order@.len() - t,
    {
        out.push(pairs[order[t]]);
        t = t + 1;
    }
    proof {
        let perm = crate::formal_context::sort_by_key(
            list.map_values(|p: (usize, usize)| pair_priority(m, words as nat, n, p)),
            list.len(),
        );
        assert forall|s: int| 0 <= s < list.len() implies out@[s] == list[perm[s]] by {
            assert(order@.map_values(|x: usize| x as int)[s] == order@[s] as int);
        }
        assert(out@ =~= incomparable_pairs_spec(m, words as nat, n));
    }
    out
}

// ---- symmetries of the order ----------------------------------------------------

/// At most this many automorphisms are collected. Using only some of the
/// group is still sound; it just breaks less symmetry.
pub const AUTOMORPHISM_CAP: usize = 32;

/// `f` maps the `n` nodes one-to-one into themselves and keeps the order:
/// of two distinct nodes, one is below the other exactly when their images
/// are.
pub open spec fn is_automorphism(m: Seq<u64>, words: nat, n: nat, f: Seq<usize>) -> bool {
    &&& f.len() == n
    &&& forall|a: int| 0 <= a < n ==> #[trigger] f[a] < n
    &&& forall|a: int, b: int| 0 <= a < b < n ==> f[a] != f[b]
    &&& forall|a: int, b: int|
        0 <= a < n && 0 <= b < n && a != b ==> (matrix_bit(m, words, a as nat, b as nat) == matrix_bit(
            m,
            words,
            #[trigger] f[a] as nat,
            #[trigger] f[b] as nat,
        ))
}

/// `f` moves some node.
pub open spec fn moves_a_node(f: Seq<usize>) -> bool {
    exists|i: int| 0 <= i < f.len() && f[i] != i
}

/// `f` agrees with `m` on the first `at` nodes.
pub open spec fn agrees_below(f: Seq<usize>, m: Seq<usize>, at: nat) -> bool {
    forall|a: int| 0 <= a < at ==> #[trigger] f[a] == m[a]
}

/// No two lists in `found` hold the same map.
pub open spec fn distinct_maps(found: Seq<Vec<usize>>) -> bool {
    forall|i: int, j: int| 0 <= i < j < found.len() ==> (#[trigger] found[i])@ != (#[trigger] found[j])@
}

/// Some list in `found` is the map `f`.
pub open spec fn holds_map(found: Seq<Vec<usize>>, f: Seq<usize>) -> bool {
    exists|k: int| 0 <= k < found.len() && #[trigger] found[k]@ == f
}

/// `f` sends every node to one with as many nodes above and as many below.
pub open spec fn counts_match(up: Seq<u32>, down: Seq<u32>, f: Seq<usize>) -> bool {
    forall|a: int| 0 <= a < f.len() ==> up[#[trigger] f[a] as int] == up[a] && down[f[a] as int] == down[a]
}

/// `f` is an automorphism that moves a node, matches the counts, and
/// agrees with `map` on the first `at` nodes.
pub open spec fn extends_map(
    m: Seq<u64>,
    words: nat,
    n: nat,
    up: Seq<u32>,
    down: Seq<u32>,
    map: Seq<usize>,
    at: nat,
    f: Seq<usize>,
) -> bool {
    &&& is_automorphism(m, words, n, f)
    &&& moves_a_node(f)
    &&& counts_match(up, down, f)
    &&& forall|a: int| 0 <= a < at ==> #[trigger] f[a] == map[a]
}

/// After trying `candidate` for node `at`, every map the search owes up to
/// that candidate is found, unless the cap is reached.
proof fn lemma_extend_candidate(
    m: Seq<u64>,
    words: nat,
    n: nat,
    up: Seq<u32>,
    down: Seq<u32>,
    map_old: Seq<usize>,
    map_pre: Seq<usize>,
    at: nat,
    candidate: usize,
    found_it: Seq<Vec<usize>>,
    found_now: Seq<Vec<usize>>,
)
    requires
        found_now.len() >= found_it.len(),
        forall|k: int| 0 <= k < found_it.len() ==> #[trigger] found_now[k] == found_it[k],
        found_it.len() == AUTOMORPHISM_CAP || forall|f: Seq<usize>|
            #[trigger] extends_map(m, words, n, up, down, map_old, at, f) && f[at as int] < candidate ==> holds_map(found_it, f),
        found_now.len() == AUTOMORPHISM_CAP || forall|f: Seq<usize>|
            #[trigger] extends_map(m, words, n, up, down, map_pre, at + 1, f) ==> holds_map(found_now, f),
        found_now.len() <= AUTOMORPHISM_CAP,
        map_pre[at as int] == candidate,
        forall|a: int| 0 <= a < at ==> #[trigger] map_pre[a] == map_old[a],
    ensures
        found_now.len() == AUTOMORPHISM_CAP || forall|f: Seq<usize>|
            #[trigger] extends_map(m, words, n, up, down, map_old, at, f) && f[at as int] < candidate + 1 ==> holds_map(
                found_now,
                f,
            ),
{
    if found_now.len() != AUTOMORPHISM_CAP {
        assert forall|f: Seq<usize>|
            #[trigger] extends_map(m, words, n, up, down, map_old, at, f) && f[at as int] < candidate + 1 implies holds_map(
            found_now,
            f,
        ) by {
            if f[at as int] == candidate {
                assert forall|a: int| 0 <= a < at + 1 implies #[trigger] f[a] == map_pre[a] by {
                    if a < at {
                        assert(f[a] == map_old[a]);
                    }
                }
                assert(extends_map(m, words, n, up, down, map_pre, at + 1, f));
            } else {
                lemma_holds_map_grows(found_it, found_now, f);
            }
        }
    }
}

/// Before trying `candidate` at node `at`: no map found so far agrees with
/// the partial map on the first `at + 1` nodes.
proof fn lemma_call_fresh(
    old_found: Seq<Vec<usize>>,
    found_it: Seq<Vec<usize>>,
    old_map: Seq<usize>,
    pre_map: Seq<usize>,
    at: nat,
    candidate: usize,
)
    requires
        found_it.len() >= old_found.len(),
        forall|k: int| 0 <= k < old_found.len() ==> #[trigger] found_it[k] == old_found[k],
        forall|k: int| 0 <= k < old_found.len() ==> !agrees_below((#[trigger] old_found[k])@, old_map, at),
        forall|k: int|
            old_found.len() <= k < found_it.len() ==> agrees_below((#[trigger] found_it[k])@, old_map, at) && found_it[k]@[at as int]
                < candidate,
        agrees_below(pre_map, old_map, at),
        pre_map[at as int] == candidate,
    ensures
        forall|k: int| 0 <= k < found_it.len() ==> !agrees_below((#[trigger] found_it[k])@, pre_map, at + 1),
{
    assert forall|k: int| 0 <= k < found_it.len() implies !agrees_below((#[trigger] found_it[k])@, pre_map, at + 1) by {
        if k < old_found.len() {
            assert(found_it[k] == old_found[k]);
            let a = choose|a: int| 0 <= a < at && !(old_found[k]@[a] == old_map[a]);
            assert(pre_map[a] == old_map[a]);
        } else {
            assert(found_it[k]@[at as int] != pre_map[at as int]);
        }
    }
}

/// After trying `candidate` at node `at`: every map this call found agrees
/// with the partial map below `at` and has a candidate up to this one at
/// `at`.
proof fn lemma_after_call(
    old_len: int,
    found_it: Seq<Vec<usize>>,
    found_now: Seq<Vec<usize>>,
    old_map: Seq<usize>,
    pre_map: Seq<usize>,
    at: nat,
    candidate: usize,
)
    requires
        0 <= old_len <= found_it.len() <= found_now.len(),
        forall|k: int| 0 <= k < found_it.len() ==> #[trigger] found_now[k] == found_it[k],
        forall|k: int|
            old_len <= k < found_it.len() ==> agrees_below((#[trigger] found_it[k])@, old_map, at) && found_it[k]@[at as int]
                < candidate,
        forall|k: int| found_it.len() <= k < found_now.len() ==> agrees_below((#[trigger] found_now[k])@, pre_map, at + 1),
        agrees_below(pre_map, old_map, at),
        pre_map[at as int] == candidate,
    ensures
        forall|k: int|
            old_len <= k < found_now.len() ==> agrees_below((#[trigger] found_now[k])@, old_map, at) && found_now[k]@[at as int]
                < candidate + 1,
{
    assert forall|k: int| old_len <= k < found_now.len() implies agrees_below((#[trigger] found_now[k])@, old_map, at)
        && found_now[k]@[at as int] < candidate + 1 by {
        if k < found_it.len() {
            assert(found_now[k] == found_it[k]);
        } else {
            assert(agrees_below(found_now[k]@, pre_map, at + 1));
            assert(found_now[k]@[at as int] == pre_map[at as int]);
            assert forall|a: int| 0 <= a < at implies #[trigger] found_now[k]@[a] == old_map[a] by {
                assert(found_now[k]@[a] == pre_map[a]);
            }
        }
    }
}

proof fn lemma_holds_map_grows(a: Seq<Vec<usize>>, b: Seq<Vec<usize>>, f: Seq<usize>)
    requires
        a.len() <= b.len(),
        forall|k: int| 0 <= k < a.len() ==> #[trigger] b[k] == a[k],
        holds_map(a, f),
    ensures
        holds_map(b, f),
{
    let k = choose|k: int| 0 <= k < a.len() && #[trigger] a[k]@ == f;
    assert(b[k]@ == f);
}

/// Backtracking search for order automorphisms, matching nodes only where
/// the number of nodes above and below them agrees.
struct AutomorphismSearch<'a> {
    node_count: usize,
    words: usize,
    closure: &'a [u64],
    up: Vec<u32>,
    down: Vec<u32>,
    map: Vec<usize>,
    used: Vec<bool>,
    found: Vec<Vec<usize>>,
}

impl<'a> AutomorphismSearch<'a> {
    spec fn wf(&self) -> bool {
        &&& matrix_shape(self.closure@, self.node_count as nat, self.words as nat)
        &&& self.up@.len() == self.node_count
        &&& self.down@.len() == self.node_count
        &&& self.map@.len() == self.node_count
        &&& self.used@.len() == self.node_count
        &&& self.found@.len() <= AUTOMORPHISM_CAP
        &&& forall|i: int|
            0 <= i < self.found@.len() ==> #[trigger] is_automorphism(
                self.closure@,
                self.words as nat,
                self.node_count as nat,
                self.found@[i]@,
            ) && moves_a_node(self.found@[i]@)
    }

    /// Changing only the partial map and the marks keeps a search well formed.
    proof fn lemma_wf_frame(a: &Self, b: &Self)
        requires
            a.wf(),
            b.found@ == a.found@,
            b.closure == a.closure,
            b.node_count == a.node_count,
            b.words == a.words,
            b.up@ == a.up@,
            b.down@ == a.down@,
            b.map@.len() == a.map@.len(),
            b.used@.len() == a.used@.len(),
        ensures
            b.wf(),
    {
    }

    /// The first `at` nodes are mapped one-to-one, keeping the order among
    /// them, and `used` marks exactly their images.
    spec fn partial(&self, at: nat) -> bool {
        &&& at <= self.node_count
        &&& forall|a: int| 0 <= a < at ==> #[trigger] self.map@[a] < self.node_count
        &&& forall|a: int, b: int| 0 <= a < b < at ==> self.map@[a] != self.map@[b]
        &&& forall|c: int|
            0 <= c < self.node_count ==> (#[trigger] self.used@[c] <==> exists|a: int|
                0 <= a < at && self.map@[a] == c)
        &&& forall|a: int, b: int|
            0 <= a < at && 0 <= b < at && a != b ==> (matrix_bit(
                self.closure@,
                self.words as nat,
                a as nat,
                b as nat,
            ) == matrix_bit(self.closure@, self.words as nat, #[trigger] self.map@[a] as nat, #[trigger] self.map@[b] as nat))
    }

    #[verifier::rlimit(40)]
    #[verifier::spinoff_prover]
    fn extend(&mut self, at: usize)
        requires
            old(self).wf(),
            old(self).partial(at as nat),
            distinct_maps(old(self).found@),
            forall|k: int| 0 <= k < old(self).found@.len() ==> !agrees_below((#[trigger] old(self).found@[k])@, old(self).map@, at as nat),
        ensures
            distinct_maps(final(self).found@),
            forall|k: int|
                old(self).found@.len() <= k < final(self).found@.len() ==> agrees_below(
                    (#[trigger] final(self).found@[k])@,
                    old(self).map@,
                    at as nat,
                ),
            final(self).wf(),
            final(self).node_count == old(self).node_count,
            final(self).words == old(self).words,
            final(self).closure == old(self).closure,
            final(self).up@ == old(self).up@,
            final(self).down@ == old(self).down@,
            final(self).used@ == old(self).used@,
            final(self).map@.len() == old(self).map@.len(),
            forall|a: int| 0 <= a < at ==> #[trigger] final(self).map@[a] == old(self).map@[a],
            final(self).found@.len() >= old(self).found@.len(),
            forall|k: int| 0 <= k < old(self).found@.len() ==> #[trigger] final(self).found@[k] == old(self).found@[k],
            final(self).found@.len() == AUTOMORPHISM_CAP || forall|f: Seq<usize>|
                #[trigger] extends_map(
                    old(self).closure@,
                    old(self).words as nat,
                    old(self).node_count as nat,
                    old(self).up@,
                    old(self).down@,
                    old(self).map@,
                    at as nat,
                    f,
                ) ==> holds_map(final(self).found@, f),
        decreases old(self).node_count - at,
    {
        if self.found.len() >= AUTOMORPHISM_CAP {
            return;
        }
        let n = self.node_count;
        if at == n {
            let mut moved = false;
            let mut i: usize = 0;
            while i < n
                invariant
                    self.wf(),
                    self.partial(at as nat),
                    at == n,
                    n == self.node_count,
                    i <= n,
                    moved == exists|x: int| 0 <= x < i && self.map@[x] != x,
                decreases n - i,
            {
                if self.map[i] != i {
                    moved = true;
                }
                i = i + 1;
            }
            if moved {
                let mut copy: Vec<usize> = Vec::new();
                let mut j: usize = 0;
                while j < n
                    invariant
                        n == self.map@.len(),
                        j <= n,
                        copy@ == self.map@.take(j as int),
                    decreases n - j,
                {
                    copy.push(self.map[j]);
                    assert(copy@ =~= self.map@.take(j + 1));
                    j = j + 1;
                }
                assert(copy@ =~= self.map@);
                let ghost before = self.found@;
                self.found.push(copy);
                proof {
                    assert forall|x: int| 0 <= x < self.found@.len() implies #[trigger] is_automorphism(
                        self.closure@,
                        self.words as nat,
                        self.node_count as nat,
                        self.found@[x]@,
                    ) && moves_a_node(self.found@[x]@) by {
                        if x < before.len() {
                            assert(self.found@[x] == before[x]);
                        }
                    }
                    assert(self.found@[before.len() as int]@ == self.map@);
                    assert forall|i: int, j: int| 0 <= i < j < self.found@.len() implies (#[trigger] self.found@[i])@
                        != (#[trigger] self.found@[j])@ by {
                        assert(self.found@[i] == before[i]);
                        if j < before.len() {
                            assert(self.found@[j] == before[j]);
                        } else if self.found@[i]@ == self.map@ {
                            assert(agrees_below(before[i]@, old(self).map@, at as nat));
                        }
                    }
                    assert forall|k: int|
                        old(self).found@.len() <= k < self.found@.len() implies agrees_below(
                            (#[trigger] self.found@[k])@,
                            old(self).map@,
                            at as nat,
                        ) by {
                        assert(k == before.len());
                    }
                    assert forall|f: Seq<usize>|
                        #[trigger] extends_map(
                            old(self).closure@,
                            old(self).words as nat,
                            old(self).node_count as nat,
                            old(self).up@,
                            old(self).down@,
                            old(self).map@,
                            at as nat,
                            f,
                        ) implies holds_map(self.found@, f) by {
                        assert(f =~= self.map@);
                        assert(self.found@[before.len() as int]@ == f);
                    }
                }
            } else {
                proof {
                    assert forall|f: Seq<usize>|
                        #[trigger] extends_map(
                            old(self).closure@,
                            old(self).words as nat,
                            old(self).node_count as nat,
                            old(self).up@,
                            old(self).down@,
                            old(self).map@,
                            at as nat,
                            f,
                        ) implies holds_map(self.found@, f) by {
                        assert(f =~= self.map@);
                        let x = choose|x: int| 0 <= x < f.len() && f[x] != x;
                        assert(self.map@[x] != x);
                    }
                }
            }
            return;
        }
        let mut candidate: usize = 0;
        while candidate < n
            invariant
                self.wf(),
                self.partial(at as nat),
                at < n,
                n == self.node_count,
                candidate <= n,
                self.used@ == old(self).used@,
                self.map@.len() == n,
                self.node_count == old(self).node_count,
                self.words == old(self).words,
                self.closure == old(self).closure,
                self.up@ == old(self).up@,
                self.down@ == old(self).down@,
                forall|a: int| 0 <= a < at ==> #[trigger] self.map@[a] == old(self).map@[a],
                self.found@.len() >= old(self).found@.len(),
                forall|k: int| 0 <= k < old(self).found@.len() ==> #[trigger] self.found@[k] == old(self).found@[k],
                self.found@.len() == AUTOMORPHISM_CAP || forall|f: Seq<usize>|
                    #[trigger] extends_map(
                        old(self).closure@,
                        old(self).words as nat,
                        old(self).node_count as nat,
                        old(self).up@,
                        old(self).down@,
                        old(self).map@,
                        at as nat,
                        f,
                    ) && f[at as int] < candidate ==> holds_map(self.found@, f),
                distinct_maps(self.found@),
                forall|k: int|
                    0 <= k < old(self).found@.len() ==> !agrees_below(
                        (#[trigger] old(self).found@[k])@,
                        old(self).map@,
                        at as nat,
                    ),
                forall|k: int|
                    old(self).found@.len() <= k < self.found@.len() ==> agrees_below(
                        (#[trigger] self.found@[k])@,
                        old(self).map@,
                        at as nat,
                    ) && self.found@[k]@[at as int] < candidate,
            decreases n - candidate,
        {
            let ghost found_it = self.found@;
            if self.used[candidate] || self.up[candidate] != self.up[at] || self.down[candidate] != self.down[at] {
                proof {
                    assert forall|f: Seq<usize>|
                        #[trigger] extends_map(
                            old(self).closure@,
                            old(self).words as nat,
                            old(self).node_count as nat,
                            old(self).up@,
                            old(self).down@,
                            old(self).map@,
                            at as nat,
                            f,
                        ) && f[at as int] < candidate + 1 && self.found@.len() != AUTOMORPHISM_CAP implies holds_map(
                        self.found@,
                        f,
                    ) by {
                        if f[at as int] == candidate {
                            if self.used@[candidate as int] {
                                let a = choose|a: int| 0 <= a < at && self.map@[a] == candidate;
                                assert(f[a] == old(self).map@[a]);
                                assert(f[a] != f[at as int]);
                            } else {
                                assert(old(self).up@[f[at as int] as int] == old(self).up@[at as int]);
                            }
                        }
                    }
                }
                candidate = candidate + 1;
                continue;
            }
            let mut consistent = true;
            let mut earlier: usize = 0;
            while earlier < at
                invariant
                    self.wf(),
                    self.partial(at as nat),
                    at < n,
                    n == self.node_count,
                    candidate < n,
                    earlier <= at,
                    consistent == forall|e: int|
                        0 <= e < earlier ==> (matrix_bit(self.closure@, self.words as nat, e as nat, at as nat)
                            == matrix_bit(self.closure@, self.words as nat, #[trigger] self.map@[e] as nat, candidate as nat)
                            && matrix_bit(self.closure@, self.words as nat, at as nat, e as nat) == matrix_bit(
                            self.closure@,
                            self.words as nat,
                            candidate as nat,
                            self.map@[e] as nat,
                        )),
                decreases at - earlier,
            {
                let image = self.map[earlier];
                proof {
                    lemma_index(earlier as nat, (at / 64) as nat, self.words as nat, n as nat);
                    lemma_index(image as nat, (candidate / 64) as nat, self.words as nat, n as nat);
                    lemma_index(at as nat, (earlier / 64) as nat, self.words as nat, n as nat);
                    lemma_index(candidate as nat, (image / 64) as nat, self.words as nat, n as nat);
                }
                let agree = reaches(self.closure, self.words, earlier, at) == reaches(self.closure, self.words, image, candidate)
                    && reaches(self.closure, self.words, at, earlier) == reaches(self.closure, self.words, candidate, image);
                if !agree {
                    consistent = false;
                }
                earlier = earlier + 1;
            }
            if !consistent {
                proof {
                    assert forall|f: Seq<usize>|
                        #[trigger] extends_map(
                            old(self).closure@,
                            old(self).words as nat,
                            old(self).node_count as nat,
                            old(self).up@,
                            old(self).down@,
                            old(self).map@,
                            at as nat,
                            f,
                        ) && f[at as int] < candidate + 1 && self.found@.len() != AUTOMORPHISM_CAP implies holds_map(
                        self.found@,
                        f,
                    ) by {
                        if f[at as int] == candidate {
                            let e = choose|e: int|
                                0 <= e < at && !(matrix_bit(self.closure@, self.words as nat, e as nat, at as nat)
                                    == matrix_bit(self.closure@, self.words as nat, #[trigger] self.map@[e] as nat, candidate as nat)
                                    && matrix_bit(self.closure@, self.words as nat, at as nat, e as nat) == matrix_bit(
                                    self.closure@,
                                    self.words as nat,
                                    candidate as nat,
                                    self.map@[e] as nat,
                                ));
                            assert(f[e] == old(self).map@[e]);
                            assert(matrix_bit(self.closure@, self.words as nat, e as nat, at as nat) == matrix_bit(
                                self.closure@,
                                self.words as nat,
                                f[e] as nat,
                                f[at as int] as nat,
                            ));
                            assert(matrix_bit(self.closure@, self.words as nat, at as nat, e as nat) == matrix_bit(
                                self.closure@,
                                self.words as nat,
                                f[at as int] as nat,
                                f[e] as nat,
                            ));
                        }
                    }
                }
                candidate = candidate + 1;
                continue;
            }
            let ghost map0 = self.map@;
            let ghost used0 = self.used@;
            let ghost pre_set = *self;
            self.map.set(at, candidate);
            self.used.set(candidate, true);
            proof {
                assert(!used0[candidate as int]);
                assert forall|a: int, b: int| 0 <= a < b < at + 1 implies self.map@[a] != self.map@[b] by {
                    if b == at {
                        if self.map@[a] == candidate {
                            assert(used0[candidate as int]);
                        }
                    }
                }
                assert forall|c: int| 0 <= c < self.node_count implies (#[trigger] self.used@[c] <==> exists|a: int|
                    0 <= a < at + 1 && self.map@[a] == c) by {
                    if c == candidate {
                        assert(self.map@[at as int] == c);
                    } else {
                        if exists|a: int| 0 <= a < at + 1 && self.map@[a] == c {
                            let a = choose|a: int| 0 <= a < at + 1 && self.map@[a] == c;
                            assert(a != at);
                            assert(map0[a] == c);
                        }
                        if used0[c] {
                            let a = choose|a: int| 0 <= a < at && map0[a] == c;
                            assert(self.map@[a] == c);
                        }
                    }
                }
                assert forall|a: int, b: int|
                    0 <= a < at + 1 && 0 <= b < at + 1 && a != b implies (matrix_bit(
                        self.closure@,
                        self.words as nat,
                        a as nat,
                        b as nat,
                    ) == matrix_bit(self.closure@, self.words as nat, #[trigger] self.map@[a] as nat, #[trigger] self.map@[b] as nat)) by {
                    if a < at && b < at {
                        assert(self.map@[a] == map0[a] && self.map@[b] == map0[b]);
                    } else if a == at {
                        assert(self.map@[b] == map0[b]);
                    } else {
                        assert(self.map@[a] == map0[a]);
                    }
                }
            }
            let ghost pre_call = *self;
            proof {
                Self::lemma_wf_frame(&pre_set, &*self);
                assert(agrees_below(self.map@, old(self).map@, at as nat));
                lemma_call_fresh(old(self).found@, self.found@, old(self).map@, self.map@, at as nat, candidate);
            }
            self.extend(at + 1);
            proof {
                assert(self.map@[at as int] == candidate);
                assert forall|k: int| 0 <= k < found_it.len() implies #[trigger] self.found@[k] == found_it[k] by {
                    assert(self.found@[k] == pre_call.found@[k]);
                }
                lemma_extend_candidate(
                    old(self).closure@,
                    old(self).words as nat,
                    old(self).node_count as nat,
                    old(self).up@,
                    old(self).down@,
                    old(self).map@,
                    pre_call.map@,
                    at as nat,
                    candidate,
                    found_it,
                    self.found@,
                );
                lemma_after_call(
                    old(self).found@.len() as int,
                    found_it,
                    self.found@,
                    old(self).map@,
                    pre_call.map@,
                    at as nat,
                    candidate,
                );
            }
            let ghost used1 = self.used@;
            let ghost mid = *self;
            assert(mid.wf());
            self.used.set(candidate, false);
            proof {
                assert(self.used@ =~= used0);
                assert(self.found@ == mid.found@);
                Self::lemma_wf_frame(&mid, &*self);
                assert forall|a: int| 0 <= a < at implies #[trigger] self.map@[a] == old(self).map@[a] by {
                    assert(self.map@[a] == map0[a]);
                }
                assert forall|a: int| 0 <= a < at implies #[trigger] self.map@[a] == map0[a] by {}
                assert forall|c: int| 0 <= c < self.node_count implies (#[trigger] self.used@[c] <==> exists|a: int|
                    0 <= a < at && self.map@[a] == c) by {
                    if used0[c] {
                        let a = choose|a: int| 0 <= a < at && map0[a] == c;
                        assert(self.map@[a] == c);
                    }
                    if exists|a: int| 0 <= a < at && self.map@[a] == c {
                        let a = choose|a: int| 0 <= a < at && self.map@[a] == c;
                        assert(map0[a] == c);
                    }
                }
                assert forall|a: int, b: int|
                    0 <= a < at && 0 <= b < at && a != b implies (matrix_bit(
                        self.closure@,
                        self.words as nat,
                        a as nat,
                        b as nat,
                    ) == matrix_bit(self.closure@, self.words as nat, #[trigger] self.map@[a] as nat, #[trigger] self.map@[b] as nat)) by {
                    assert(self.map@[a] == map0[a] && self.map@[b] == map0[b]);
                }
                assert forall|a: int, b: int| 0 <= a < b < at implies self.map@[a] != self.map@[b] by {
                    assert(self.map@[a] == map0[a] && self.map@[b] == map0[b]);
                }
            }
            candidate = candidate + 1;
        }
    }
}

/// How many of the first `k` nodes `u` reaches (`up`) or are reached from
/// `u` (`up == false`) in the matrix.
pub open spec fn related_count(m: Seq<u64>, words: nat, u: nat, up: bool, k: nat) -> nat
    decreases k,
{
    if k == 0 {
        0
    } else {
        let v = (k - 1) as nat;
        let hit = if up {
            matrix_bit(m, words, u, v)
        } else {
            matrix_bit(m, words, v, u)
        };
        related_count(m, words, u, up, v) + if hit {
            1nat
        } else {
            0nat
        }
    }
}

/// How many nodes `u` is below (`up`) or above (`up == false`).
fn count_related(closure: &[u64], words: usize, node_count: usize, u: usize, up: bool) -> (r: u32)
    requires
        matrix_shape(closure@, node_count as nat, words as nat),
        node_count <= u32::MAX,
        u < node_count,
    ensures
        r == related_count(closure@, words as nat, u as nat, up, node_count as nat),
{
    let mut count: u32 = 0;
    let mut v: usize = 0;
    while v < node_count
        invariant
            matrix_shape(closure@, node_count as nat, words as nat),
            node_count <= u32::MAX,
            u < node_count,
            v <= node_count,
            count <= v,
            count == related_count(closure@, words as nat, u as nat, up, v as nat),
        decreases node_count - v,
    {
        proof {
            lemma_index(u as nat, (v / 64) as nat, words as nat, node_count as nat);
            lemma_index(v as nat, (u / 64) as nat, words as nat, node_count as nat);
        }
        let related = if up {
            reaches(closure, words, u, v)
        } else {
            reaches(closure, words, v, u)
        };
        if related {
            count = count + 1;
        }
        v = v + 1;
    }
    count
}

/// `f` sends every node to one with as many nodes above it and as many
/// below it.
pub open spec fn counts_preserved(m: Seq<u64>, words: nat, n: nat, f: Seq<usize>) -> bool {
    forall|a: int|
        0 <= a < n ==> related_count(m, words, #[trigger] f[a] as nat, true, n) == related_count(m, words, a as nat, true, n)
            && related_count(m, words, f[a] as nat, false, n) == related_count(m, words, a as nat, false, n)
}

/// Non-identity automorphisms of the order, up to [`AUTOMORPHISM_CAP`]:
/// unless that many were found, every one that keeps the number of nodes
/// above and below each node is among them.
pub fn automorphisms(node_count: usize, words: usize, closure: &[u64]) -> (r: Vec<Vec<usize>>)
    requires
        matrix_shape(closure@, node_count as nat, words as nat),
        node_count <= u32::MAX,
    ensures
        r@.len() <= AUTOMORPHISM_CAP,
        forall|i: int|
            0 <= i < r@.len() ==> #[trigger] is_automorphism(closure@, words as nat, node_count as nat, r@[i]@)
                && moves_a_node(r@[i]@),
        distinct_maps(r@),
        r@.len() == AUTOMORPHISM_CAP || forall|f: Seq<usize>|
            is_automorphism(closure@, words as nat, node_count as nat, f) && moves_a_node(f) && #[trigger] counts_preserved(
                closure@,
                words as nat,
                node_count as nat,
                f,
            ) ==> holds_map(r@, f),
{
    let mut up: Vec<u32> = Vec::new();
    let mut down: Vec<u32> = Vec::new();
    let mut map: Vec<usize> = Vec::new();
    let mut used: Vec<bool> = Vec::new();
    let mut u: usize = 0;
    while u < node_count
        invariant
            matrix_shape(closure@, node_count as nat, words as nat),
            node_count <= u32::MAX,
            u <= node_count,
            up@.len() == u,
            down@.len() == u,
            map@.len() == u,
            used@.len() == u,
            forall|c: int| 0 <= c < u ==> !#[trigger] used@[c],
            forall|c: int| 0 <= c < u ==> #[trigger] up@[c] == related_count(closure@, words as nat, c as nat, true, node_count as nat),
            forall|c: int| 0 <= c < u ==> #[trigger] down@[c] == related_count(closure@, words as nat, c as nat, false, node_count as nat),
        decreases node_count - u,
    {
        up.push(count_related(closure, words, node_count, u, true));
        down.push(count_related(closure, words, node_count, u, false));
        map.push(usize::MAX);
        used.push(false);
        u = u + 1;
    }
    let mut search = AutomorphismSearch {
        node_count,
        words,
        closure,
        up,
        down,
        map,
        used,
        found: Vec::new(),
    };
    let ghost up0 = search.up@;
    let ghost down0 = search.down@;
    let ghost map0 = search.map@;
    search.extend(0);
    proof {
        assert forall|f: Seq<usize>|
            is_automorphism(closure@, words as nat, node_count as nat, f) && moves_a_node(f) && #[trigger] counts_preserved(
                closure@,
                words as nat,
                node_count as nat,
                f,
            ) && search.found@.len() != AUTOMORPHISM_CAP implies holds_map(search.found@, f) by {
            assert(extends_map(closure@, words as nat, node_count as nat, up0, down0, map0, 0, f));
        }
    }
    search.found
}

// ---- pairs by orbit -------------------------------------------------------------------

/// The listed position of each pair `(u, v)`: entry `u * n + v`, or
/// `usize::MAX` for an unlisted pair.
pub open spec fn indexes_pairs(index_of: Seq<usize>, pairs: Seq<(usize, usize)>, n: nat) -> bool {
    &&& index_of.len() == n * n
    &&& forall|x: int| 0 <= x < n * n ==> (#[trigger] index_of[x] == usize::MAX || (index_of[x] < pairs.len()
        && pairs[index_of[x] as int].0 * n + pairs[index_of[x] as int].1 == x))
}

/// Each automorphism maps every listed pair to a listed pair, up to order.
pub open spec fn closed_under(pairs: Seq<(usize, usize)>, maps: Seq<Vec<usize>>, n: nat) -> bool {
    forall|k: int, i: int|
        0 <= k < maps.len() && 0 <= i < pairs.len() ==> pairs.contains(
            (
                min_of(maps[k]@[#[trigger] pairs[i].0 as int], maps[k]@[pairs[i].1 as int]),
                max_of(#[trigger] maps[k]@[pairs[i].0 as int], maps[k]@[pairs[i].1 as int]),
            ),
        )
}

pub open spec fn min_of(a: usize, b: usize) -> usize {
    if a <= b {
        a
    } else {
        b
    }
}

pub open spec fn max_of(a: usize, b: usize) -> usize {
    if a <= b {
        b
    } else {
        a
    }
}

/// The position of every pair `(u, v)` of `pairs` at entry `u * n + v`,
/// `usize::MAX` elsewhere.
pub(crate) fn index_pairs(pairs: &Vec<(usize, usize)>, n: usize) -> (index_of: Vec<usize>)
    requires
        n * n <= usize::MAX,
        forall|i: int| 0 <= i < pairs@.len() ==> (#[trigger] pairs@[i]).0 < n && pairs@[i].1 < n,
    ensures
        indexes_pairs(index_of@, pairs@, n as nat),
        forall|i: int| 0 <= i < pairs@.len() ==> #[trigger] index_of@[pairs@[i].0 * n + pairs@[i].1] < pairs@.len(),
{
    let mut index_of: Vec<usize> = Vec::new();
    let len = n * n;
    let mut x: usize = 0;
    while x < len
        invariant
            x <= len,
            index_of@.len() == x,
            forall|y: int| 0 <= y < x ==> #[trigger] index_of@[y] == usize::MAX,
        decreases len - x,
    {
        index_of.push(usize::MAX);
        x = x + 1;
    }
    let mut i: usize = 0;
    while i < pairs.len()
        invariant
            len == n * n,
            n * n <= usize::MAX,
            forall|t: int| 0 <= t < pairs@.len() ==> (#[trigger] pairs@[t]).0 < n && pairs@[t].1 < n,
            i <= pairs@.len(),
            indexes_pairs(index_of@, pairs@, n as nat),
            forall|t: int| 0 <= t < i ==> #[trigger] index_of@[pairs@[t].0 * n + pairs@[t].1] < pairs@.len(),
        decreases pairs@.len() - i,
    {
        let (u, v) = pairs[i];
        proof {
            lemma_index(u as nat, v as nat, n as nat, n as nat);
        }
        let ghost before = index_of@;
        index_of.set(u * n + v, i);
        proof {
            assert forall|t: int| 0 <= t < i + 1 implies #[trigger] index_of@[pairs@[t].0 * n + pairs@[t].1] < pairs@.len() by {
                lemma_index(pairs@[t].0 as nat, pairs@[t].1 as nat, n as nat, n as nat);
            }
        }
        i = i + 1;
    }
    index_of
}

/// The positions `0..keys.len()` ordered by increasing key, ties in order.
fn order_by_increasing(keys: &Vec<u64>) -> (r: Vec<usize>)
    ensures
        r@.map_values(|x: usize| x as int) == crate::formal_context::sort_by_key(
            keys@.map_values(|k: u64| k as int),
            keys@.len(),
        ),
        forall|i: int| 0 <= i < r@.len() ==> #[trigger] r@[i] < keys@.len(),
{
    let ghost ks = keys@.map_values(|k: u64| k as int);
    let len = keys.len();
    let mut order: Vec<usize> = Vec::new();
    let mut k: usize = 0;
    while k < len
        invariant
            len == keys@.len(),
            ks == keys@.map_values(|k: u64| k as int),
            k <= len,
            order@.len() == k,
            order@.map_values(|x: usize| x as int) == crate::formal_context::sort_by_key(ks, k as nat),
            forall|i: int| 0 <= i < k ==> #[trigger] order@[i] < k,
        decreases len - k,
    {
        let ghost p = order@.map_values(|x: usize| x as int);
        let key = keys[k];
        let mut j: usize = order.len();
        while j > 0 && keys[order[j - 1]] > key
            invariant
                len == keys@.len(),
                ks == keys@.map_values(|k: u64| k as int),
                k < len,
                key == keys@[k as int],
                order@.len() == k,
                p == order@.map_values(|x: usize| x as int),
                forall|i: int| 0 <= i < k ==> #[trigger] order@[i] < k,
                j <= k,
                forall|i: int| j <= i < k ==> ks[#[trigger] p[i]] > ks[k as int],
            decreases j,
        {
            assert(p[j - 1] == order@[j - 1] as int);
            j = j - 1;
        }
        proof {
            if j > 0 {
                assert(p[j - 1] == order@[j - 1] as int);
            }
            crate::formal_context::lemma_insert_at(p, ks, k as int, j as int);
        }
        let ghost o0 = order@;
        order.insert(j, k);
        proof {
            assert(order@ == o0.insert(j as int, k));
            assert(order@.map_values(|x: usize| x as int) =~= p.insert(j as int, k as int));
            assert forall|i: int| 0 <= i < k + 1 implies #[trigger] order@[i] < k + 1 by {
                if i > j {
                    assert(order@[i] == o0[i - 1]);
                }
            }
        }
        k = k + 1;
    }
    order
}

/// How many entries of `orbit` are still unlabelled.
pub open spec fn unlabelled(orbit: Seq<usize>) -> nat
    decreases orbit.len(),
{
    if orbit.len() == 0 {
        0
    } else {
        unlabelled(orbit.drop_last()) + if orbit.last() == usize::MAX {
            1nat
        } else {
            0nat
        }
    }
}

proof fn lemma_unlabelled_label(orbit: Seq<usize>, j: int, x: usize)
    requires
        0 <= j < orbit.len(),
        orbit[j] == usize::MAX,
        x != usize::MAX,
    ensures
        unlabelled(orbit.update(j, x)) + 1 == unlabelled(orbit),
    decreases orbit.len(),
{
    if j < orbit.len() - 1 {
        lemma_unlabelled_label(orbit.drop_last(), j, x);
        assert(orbit.update(j, x).drop_last() =~= orbit.drop_last().update(j, x));
    } else {
        assert(orbit.update(j, x).drop_last() =~= orbit.drop_last());
    }
}

/// Reorders the pairs so that each orbit under the automorphisms is
/// contiguous, keeping the incoming order inside an orbit: the result lists
/// the same pairs, in the stable order of their orbit labels.
pub fn group_pairs_by_orbit(pairs: &mut Vec<(usize, usize)>, node_count: usize, maps: &[Vec<usize>])
    requires
        node_count * node_count <= usize::MAX,
        forall|i: int| 0 <= i < old(pairs)@.len() ==> (#[trigger] old(pairs)@[i]).0 < node_count && old(pairs)@[i].1 < node_count,
        forall|k: int| 0 <= k < maps@.len() ==> #[trigger] maps@[k]@.len() == node_count && forall|x: int|
            0 <= x < node_count ==> #[trigger] maps@[k]@[x] < node_count,
        closed_under(old(pairs)@, maps@, node_count as nat),
    ensures
        final(pairs)@.len() == old(pairs)@.len(),
        exists|keys: Seq<int>| #[trigger] rearranged(final(pairs)@, old(pairs)@, keys),
{
    let len = pairs.len();
    let index_of = index_pairs(pairs, node_count);
    let mut orbit: Vec<usize> = Vec::new();
    let mut x: usize = 0;
    while x < len
        invariant
            x <= len,
            orbit@.len() == x,
            forall|y: int| 0 <= y < x ==> #[trigger] orbit@[y] == usize::MAX,
        decreases len - x,
    {
        orbit.push(usize::MAX);
        x = x + 1;
    }
    let mut next_orbit: usize = 0;
    let mut start: usize = 0;
    while start < len
        invariant
            len == pairs@.len(),
            pairs@ == old(pairs)@,
            node_count * node_count <= usize::MAX,
            forall|i: int| 0 <= i < pairs@.len() ==> (#[trigger] pairs@[i]).0 < node_count && pairs@[i].1 < node_count,
            forall|k: int| 0 <= k < maps@.len() ==> #[trigger] maps@[k]@.len() == node_count && forall|x: int|
                0 <= x < node_count ==> #[trigger] maps@[k]@[x] < node_count,
            closed_under(pairs@, maps@, node_count as nat),
            indexes_pairs(index_of@, pairs@, node_count as nat),
            forall|i: int| 0 <= i < pairs@.len() ==> #[trigger] index_of@[pairs@[i].0 * node_count + pairs@[i].1] < pairs@.len(),
            orbit@.len() == len,
            start <= len,
            next_orbit <= start,
            forall|y: int| 0 <= y < len && #[trigger] orbit@[y] != usize::MAX ==> orbit@[y] < next_orbit,
        decreases len - start,
    {
        if orbit[start] != usize::MAX {
            start = start + 1;
            continue;
        }
        let mut queue: Vec<usize> = Vec::new();
        queue.push(start);
        orbit.set(start, next_orbit);
        let ghost initial = orbit@;
        while queue.len() > 0
            invariant
                len == pairs@.len(),
                pairs@ == old(pairs)@,
                node_count * node_count <= usize::MAX,
                forall|i: int| 0 <= i < pairs@.len() ==> (#[trigger] pairs@[i]).0 < node_count && pairs@[i].1 < node_count,
                forall|k: int| 0 <= k < maps@.len() ==> #[trigger] maps@[k]@.len() == node_count && forall|x: int|
                    0 <= x < node_count ==> #[trigger] maps@[k]@[x] < node_count,
                closed_under(pairs@, maps@, node_count as nat),
                indexes_pairs(index_of@, pairs@, node_count as nat),
                forall|i: int| 0 <= i < pairs@.len() ==> #[trigger] index_of@[pairs@[i].0 * node_count + pairs@[i].1] < pairs@.len(),
                orbit@.len() == len,
                start < len,
                next_orbit <= start,
                forall|y: int| 0 <= y < len && #[trigger] orbit@[y] != usize::MAX ==> orbit@[y] <= next_orbit,
                forall|q: int| 0 <= q < queue@.len() ==> #[trigger] queue@[q] < len,
            decreases queue@.len() + unlabelled(orbit@),
        {
            let i = queue.pop().unwrap();
            let (u, v) = pairs[i];
            let ghost measure = queue@.len() + unlabelled(orbit@);
            let mut k: usize = 0;
            while k < maps.len()
                invariant
                    len == pairs@.len(),
                    pairs@ == old(pairs)@,
                    node_count * node_count <= usize::MAX,
                    forall|i: int| 0 <= i < pairs@.len() ==> (#[trigger] pairs@[i]).0 < node_count && pairs@[i].1 < node_count,
                    forall|k: int| 0 <= k < maps@.len() ==> #[trigger] maps@[k]@.len() == node_count && forall|x: int|
                        0 <= x < node_count ==> #[trigger] maps@[k]@[x] < node_count,
                    closed_under(pairs@, maps@, node_count as nat),
                    indexes_pairs(index_of@, pairs@, node_count as nat),
                    forall|i: int| 0 <= i < pairs@.len() ==> #[trigger] index_of@[pairs@[i].0 * node_count + pairs@[i].1] < pairs@.len(),
                    orbit@.len() == len,
                    i < len,
                    (u, v) == pairs@[i as int],
                    start < len,
                    next_orbit <= start,
                    forall|y: int| 0 <= y < len && #[trigger] orbit@[y] != usize::MAX ==> orbit@[y] <= next_orbit,
                    forall|q: int| 0 <= q < queue@.len() ==> #[trigger] queue@[q] < len,
                    k <= maps@.len(),
                    queue@.len() + unlabelled(orbit@) == measure,
                decreases maps@.len() - k,
            {
                let map = &maps[k];
                let a = map[u];
                let b = map[v];
                let lo = if a <= b {
                    a
                } else {
                    b
                };
                let hi = if a <= b {
                    b
                } else {
                    a
                };
                proof {
                    assert(pairs@.contains((lo, hi))) by {
                        assert(maps@[k as int]@[pairs@[i as int].0 as int] == a);
                    }
                    let t = choose|t: int| 0 <= t < pairs@.len() && pairs@[t] == (lo, hi);
                    assert(index_of@[pairs@[t].0 * node_count + pairs@[t].1] < pairs@.len());
                    lemma_index(lo as nat, hi as nat, node_count as nat, node_count as nat);
                }
                let j = index_of[lo * node_count + hi];
                if orbit[j] == usize::MAX {
                    proof {
                        lemma_unlabelled_label(orbit@, j as int, next_orbit);
                    }
                    orbit.set(j, next_orbit);
                    queue.push(j);
                }
                k = k + 1;
            }
        }
        next_orbit = next_orbit + 1;
        start = start + 1;
    }
    let mut keys: Vec<u64> = Vec::new();
    let mut t: usize = 0;
    while t < len
        invariant
            orbit@.len() == len,
            t <= len,
            keys@.len() == t,
            forall|s: int| 0 <= s < t ==> #[trigger] keys@[s] == orbit@[s] as u64,
        decreases len - t,
    {
        keys.push(orbit[t] as u64);
        t = t + 1;
    }
    let order = order_by_increasing(&keys);
    let ghost ks = keys@.map_values(|k: u64| k as int);
    proof {
        crate::formal_context::lemma_sort_by_key(ks, len as nat);
    }
    let mut out: Vec<(usize, usize)> = Vec::new();
    let mut s: usize = 0;
    while s < len
        invariant
            len == pairs@.len(),
            pairs@ == old(pairs)@,
            order@.len() == len,
            forall|q: int| 0 <= q < len ==> #[trigger] order@[q] < len,
            order@.map_values(|x: usize| x as int) == crate::formal_context::sort_by_key(ks, len as nat),
            s <= len,
            out@ =~= Seq::new(s as nat, |q: int| pairs@[order@[q] as int]),
        decreases len - s,
    {
        out.push(pairs[order[s]]);
        s = s + 1;
    }
    proof {
        let perm = crate::formal_context::sort_by_key(ks, len as nat);
        assert forall|q: int| 0 <= q < len implies out@[q] == old(pairs)@[perm[q]] by {
            assert(order@.map_values(|x: usize| x as int)[q] == order@[q] as int);
        }
        assert(ks.len() == len);
        assert(rearranged(out@, old(pairs)@, ks));
    }
    *pairs = out;
}

/// `s` is `t` in the stable order of `keys`.
pub open spec fn rearranged(s: Seq<(usize, usize)>, t: Seq<(usize, usize)>, keys: Seq<int>) -> bool {
    &&& keys.len() == t.len()
    &&& s.len() == t.len()
    &&& forall|q: int| 0 <= q < t.len() ==> s[q] == t[#[trigger] crate::formal_context::sort_by_key(keys, t.len())[q]]
}

// ---- what the lists hold ------------------------------------------------------------

/// Rearranging by a sort permutation keeps the elements.
pub proof fn lemma_rearranged_contains(s: Seq<(usize, usize)>, t: Seq<(usize, usize)>, keys: Seq<int>)
    requires
        rearranged(s, t, keys),
    ensures
        forall|x: (usize, usize)| s.contains(x) <==> t.contains(x),
{
    broadcast use vstd::seq_lib::group_to_multiset_ensures;

    let len = t.len();
    let perm = crate::formal_context::sort_by_key(keys, len);
    crate::formal_context::lemma_sort_by_key(keys, len);
    let range = Seq::new(len, |i: int| i);
    assert forall|q: int| 0 <= q < len implies 0 <= #[trigger] perm[q] < len by {
        assert(perm.to_multiset().count(perm[q]) > 0);
        assert(range.contains(perm[q]));
    }
    assert forall|x: (usize, usize)| s.contains(x) <==> t.contains(x) by {
        if s.contains(x) {
            let q = choose|q: int| 0 <= q < s.len() && s[q] == x;
            assert(t[perm[q]] == x);
        }
        if t.contains(x) {
            let j = choose|j: int| 0 <= j < t.len() && t[j] == x;
            assert(range[j] == j);
            assert(range.to_multiset().count(j) > 0);
            assert(perm.contains(j));
            let q = choose|q: int| 0 <= q < perm.len() && perm[q] == j;
            assert(s[q] == x);
        }
    }
}

/// Rearranging by a sort permutation keeps a list free of duplicates.
pub proof fn lemma_permuted_no_dup(s: Seq<(usize, usize)>, t: Seq<(usize, usize)>, keys: Seq<int>)
    requires
        t.no_duplicates(),
        s.len() == t.len(),
        forall|q: int| 0 <= q < t.len() ==> s[q] == t[#[trigger] crate::formal_context::sort_by_key(keys, t.len())[q]],
    ensures
        s.no_duplicates(),
{
    broadcast use vstd::seq_lib::group_to_multiset_ensures;

    let len = t.len();
    let perm = crate::formal_context::sort_by_key(keys, len);
    crate::formal_context::lemma_sort_by_key(keys, len);
    let range = Seq::new(len, |i: int| i);
    assert forall|q: int| 0 <= q < len implies 0 <= #[trigger] perm[q] < len by {
        assert(perm.to_multiset().count(perm[q]) > 0);
        assert(range.contains(perm[q]));
    }
    assert(range.no_duplicates());
    range.lemma_multiset_has_no_duplicates();
    perm.lemma_multiset_has_no_duplicates_conv();
    assert forall|a: int, b: int| 0 <= a < s.len() && 0 <= b < s.len() && a != b implies s[a] != s[b] by {
        assert(perm[a] != perm[b]);
        assert(s[a] == t[perm[a]] && s[b] == t[perm[b]]);
    }
}

/// A row lists each pair once.
proof fn lemma_row_no_dup(m: Seq<u64>, words: nat, u: nat, k: nat)
    requires
        k <= usize::MAX,
    ensures
        incomparable_row(m, words, u, k).no_duplicates(),
    decreases k,
{
    if k > u + 1 {
        lemma_row_no_dup(m, words, u, (k - 1) as nat);
        lemma_row_range(m, words, u, (k - 1) as nat);
        let r = incomparable_row(m, words, u, (k - 1) as nat);
        let s = incomparable_row(m, words, u, k);
        assert forall|a: int, b: int| 0 <= a < s.len() && 0 <= b < s.len() && a != b implies s[a] != s[b] by {
            if a < r.len() && b < r.len() {
                assert(s[a] == r[a] && s[b] == r[b]);
            } else if a < r.len() {
                assert(s[a] == r[a]);
                assert(r[a].1 < k - 1);
            } else {
                assert(s[b] == r[b]);
                assert(r[b].1 < k - 1);
            }
        }
    }
}

/// The incomparable pairs up to `k` are listed once each.
proof fn lemma_upto_no_dup(m: Seq<u64>, words: nat, n: nat, k: nat)
    requires
        k <= n,
        n <= usize::MAX,
    ensures
        incomparable_upto(m, words, n, k).no_duplicates(),
    decreases k,
{
    if k > 0 {
        lemma_upto_no_dup(m, words, n, (k - 1) as nat);
        lemma_row_no_dup(m, words, (k - 1) as nat, n);
        lemma_row_range(m, words, (k - 1) as nat, n);
        lemma_incomparable_contains(m, words, n, (k - 1) as nat);
        let a = incomparable_upto(m, words, n, (k - 1) as nat);
        let b = incomparable_row(m, words, (k - 1) as nat, n);
        assert forall|i: int, j: int| 0 <= i < a.len() && 0 <= j < b.len() implies a[i] != b[j] by {
            assert(a.contains(a[i]));
        }
        vstd::seq_lib::lemma_no_dup_in_concat(a, b);
    }
}

/// The incomparable pairs are listed once each.
pub proof fn lemma_incomparable_pairs_no_dup(m: Seq<u64>, words: nat, n: nat)
    requires
        n <= usize::MAX,
    ensures
        incomparable_pairs_spec(m, words, n).no_duplicates(),
{
    let list = incomparable_upto(m, words, n, n);
    let keys = list.map_values(|p: (usize, usize)| pair_priority(m, words, n, p));
    lemma_upto_no_dup(m, words, n, n);
    lemma_permuted_no_dup(incomparable_pairs_spec(m, words, n), list, keys);
}

/// The closure of an acyclic covering relation is a strict order.
pub proof fn lemma_closure_strict(m: Seq<u64>, words: nat, n: nat, edges: Seq<(u32, u32)>)
    requires
        edges_in_range(n, edges),
        acyclic(n, edges),
        n <= 64 * words,
        forall|u: nat, v: nat|
            u < n && v < 64 * words ==> (#[trigger] matrix_bit(m, words, u, v) <==> (v < n && walk_reaches(
                edges,
                u as int,
                v as int,
            ))),
    ensures
        strict_order(m, words, n),
{
    assert forall|u: nat| u < n implies !#[trigger] matrix_bit(m, words, u, u) by {
        crate::poset::lemma_acyclic_no_cycle(n, edges, u as int);
    }
    assert forall|u: nat, v: nat, w: nat|
        u < n && v < n && w < n && matrix_bit(m, words, u, v) && matrix_bit(m, words, v, w) implies matrix_bit(
        m,
        words,
        u,
        w,
    ) by {
        crate::poset::lemma_reaches_trans(edges, u as int, v as int, w as int);
    }
}

proof fn lemma_row_contains(m: Seq<u64>, words: nat, u: nat, k: nat)
    requires
        k <= usize::MAX,
    ensures
        forall|p: (usize, usize)|
            #[trigger] incomparable_row(m, words, u, k).contains(p) <==> (p.0 == u && u < p.1 < k
                && incomparable(m, words, u, p.1 as nat)),
    decreases k,
{
    if k > u + 1 {
        lemma_row_contains(m, words, u, (k - 1) as nat);
        let r = incomparable_row(m, words, u, (k - 1) as nat);
        let s = incomparable_row(m, words, u, k);
        assert forall|p: (usize, usize)| #[trigger] s.contains(p) <==> (p.0 == u && u < p.1 < k
            && incomparable(m, words, u, p.1 as nat)) by {
            if s.contains(p) {
                let i = choose|i: int| 0 <= i < s.len() && s[i] == p;
                if i < r.len() {
                    assert(r[i] == p);
                    assert(r.contains(p));
                }
            }
            if p.0 == u && u < p.1 < k && incomparable(m, words, u, p.1 as nat) {
                if p.1 < k - 1 {
                    assert(r.contains(p));
                    let i = choose|i: int| 0 <= i < r.len() && r[i] == p;
                    assert(s[i] == p);
                } else {
                    assert(s[r.len() as int] == p);
                }
            }
        }
    } else {
        assert forall|p: (usize, usize)| #[trigger] incomparable_row(m, words, u, k).contains(p) implies false by {}
    }
}

/// The list of incomparable pairs holds exactly the pairs `u < v < n` the
/// order leaves incomparable.
pub proof fn lemma_incomparable_contains(m: Seq<u64>, words: nat, n: nat, k: nat)
    requires
        k <= n,
        n <= usize::MAX,
    ensures
        forall|p: (usize, usize)|
            #[trigger] incomparable_upto(m, words, n, k).contains(p) <==> (p.0 < k && p.0 < p.1 < n
                && incomparable(m, words, p.0 as nat, p.1 as nat)),
    decreases k,
{
    if k > 0 {
        lemma_incomparable_contains(m, words, n, (k - 1) as nat);
        lemma_row_contains(m, words, (k - 1) as nat, n);
        let a = incomparable_upto(m, words, n, (k - 1) as nat);
        let b = incomparable_row(m, words, (k - 1) as nat, n);
        assert forall|p: (usize, usize)| #[trigger] (a + b).contains(p) <==> (p.0 < k && p.0 < p.1 < n
            && incomparable(m, words, p.0 as nat, p.1 as nat)) by {
            if (a + b).contains(p) {
                let i = choose|i: int| 0 <= i < (a + b).len() && (a + b)[i] == p;
                if i < a.len() {
                    assert(a[i] == p);
                    assert(a.contains(p));
                } else {
                    assert(b[i - a.len()] == p);
                    assert(b.contains(p));
                }
            }
            if p.0 < k && p.0 < p.1 < n && incomparable(m, words, p.0 as nat, p.1 as nat) {
                if p.0 < k - 1 {
                    assert(a.contains(p));
                    let i = choose|i: int| 0 <= i < a.len() && a[i] == p;
                    assert((a + b)[i] == p);
                } else {
                    assert(b.contains(p));
                    let i = choose|i: int| 0 <= i < b.len() && b[i] == p;
                    assert((a + b)[a.len() + i] == p);
                }
            }
        }
    } else {
        assert forall|p: (usize, usize)| #[trigger] incomparable_upto(m, words, n, k).contains(p) implies false by {}
    }
}

/// The sorted list holds exactly the incomparable pairs `u < v < n`.
pub proof fn lemma_incomparable_pairs_contains(m: Seq<u64>, words: nat, n: nat)
    requires
        n <= usize::MAX,
    ensures
        forall|p: (usize, usize)|
            #[trigger] incomparable_pairs_spec(m, words, n).contains(p) <==> (p.0 < p.1 < n && incomparable(
                m,
                words,
                p.0 as nat,
                p.1 as nat,
            )),
{
    let list = incomparable_upto(m, words, n, n);
    let keys = list.map_values(|p: (usize, usize)| pair_priority(m, words, n, p));
    lemma_incomparable_contains(m, words, n, n);
    assert(rearranged(incomparable_pairs_spec(m, words, n), list, keys));
    lemma_rearranged_contains(incomparable_pairs_spec(m, words, n), list, keys);
}

/// Automorphisms map incomparable pairs to incomparable pairs.
pub proof fn lemma_automorphisms_close(
    m: Seq<u64>,
    words: nat,
    n: nat,
    pairs: Seq<(usize, usize)>,
    maps: Seq<Vec<usize>>,
)
    requires
        n <= usize::MAX,
        forall|p: (usize, usize)| #[trigger] pairs.contains(p) <==> (p.0 < p.1 < n && incomparable(m, words, p.0 as nat, p.1 as nat)),
        forall|k: int| 0 <= k < maps.len() ==> #[trigger] is_automorphism(m, words, n, maps[k]@),
    ensures
        closed_under(pairs, maps, n),
{
    assert forall|k: int, i: int| 0 <= k < maps.len() && 0 <= i < pairs.len() implies pairs.contains(
        (
            min_of(maps[k]@[#[trigger] pairs[i].0 as int], maps[k]@[pairs[i].1 as int]),
            max_of(#[trigger] maps[k]@[pairs[i].0 as int], maps[k]@[pairs[i].1 as int]),
        ),
    ) by {
        let f = maps[k]@;
        assert(is_automorphism(m, words, n, f));
        let (u, v) = pairs[i];
        assert(pairs.contains((u, v)));
        let a = f[u as int];
        let b = f[v as int];
        assert(a != b);
        assert(matrix_bit(m, words, u as nat, v as nat) == matrix_bit(m, words, a as nat, b as nat));
        assert(matrix_bit(m, words, v as nat, u as nat) == matrix_bit(m, words, b as nat, a as nat));
        let lo = min_of(a, b);
        let hi = max_of(a, b);
        assert(lo < hi < n && incomparable(m, words, lo as nat, hi as nat));
    }
}

proof fn lemma_row_len(m: Seq<u64>, words: nat, u: nat, k: nat)
    ensures
        incomparable_row(m, words, u, k).len() <= k,
    decreases k,
{
    if k > u + 1 {
        lemma_row_len(m, words, u, (k - 1) as nat);
    }
}

/// At most `k * n` pairs come from the first `k` rows.
pub proof fn lemma_upto_len(m: Seq<u64>, words: nat, n: nat, k: nat)
    ensures
        incomparable_upto(m, words, n, k).len() <= k * n,
    decreases k,
{
    if k > 0 {
        lemma_upto_len(m, words, n, (k - 1) as nat);
        lemma_row_len(m, words, (k - 1) as nat, n);
        assert((k - 1) * n + n == k * n) by (nonlinear_arith);
    }
}

// ---- drawing a linear extension ------------------------------------------------------

/// How many of the nodes `0..k` outside `placed` are below `v`.
pub open spec fn pending_below(m: Seq<u64>, words: nat, v: nat, placed: Seq<usize>, k: nat) -> nat
    decreases k,
{
    if k == 0 {
        0
    } else {
        pending_below(m, words, v, placed, (k - 1) as nat) + if !placed.contains((k - 1) as usize)
            && matrix_bit(m, words, (k - 1) as nat, v) {
            1nat
        } else {
            0nat
        }
    }
}

/// Placing `x` takes it out of the count of every node above it.
proof fn lemma_pending_place(m: Seq<u64>, words: nat, v: nat, placed: Seq<usize>, x: usize, k: nat)
    requires
        !placed.contains(x),
        k <= usize::MAX + 1,
    ensures
        pending_below(m, words, v, placed.push(x), k) + (if x < k && matrix_bit(m, words, x as nat, v) {
            1nat
        } else {
            0nat
        }) == pending_below(m, words, v, placed, k),
    decreases k,
{
    if k > 0 {
        lemma_pending_place(m, words, v, placed, x, (k - 1) as nat);
        let y = (k - 1) as usize;
        assert(placed.push(x).contains(y) <==> (placed.contains(y) || y == x)) by {
            if placed.push(x).contains(y) {
                let i = choose|i: int| 0 <= i < placed.push(x).len() && placed.push(x)[i] == y;
                if i < placed.len() {
                    assert(placed[i] == y);
                }
            }
            if placed.contains(y) {
                let i = choose|i: int| 0 <= i < placed.len() && placed[i] == y;
                assert(placed.push(x)[i] == y);
            }
            if y == x {
                assert(placed.push(x)[placed.len() as int] == y);
            }
        }
    }
}

/// A node outside `placed` below `v` leaves `v` something pending.
proof fn lemma_pending_positive(m: Seq<u64>, words: nat, v: nat, placed: Seq<usize>, u: usize, k: nat)
    requires
        u < k,
        !placed.contains(u),
        matrix_bit(m, words, u as nat, v),
    ensures
        pending_below(m, words, v, placed, k) >= 1,
    decreases k,
{
    if u < k - 1 {
        lemma_pending_positive(m, words, v, placed, u, (k - 1) as nat);
    } else {
        assert((k - 1) as usize == u);
    }
}

/// Nothing pending below `v`: every node below it is placed.
proof fn lemma_pending_zero(m: Seq<u64>, words: nat, v: nat, placed: Seq<usize>, k: nat)
    requires
        pending_below(m, words, v, placed, k) == 0,
        k <= usize::MAX + 1,
    ensures
        forall|u: usize| u < k && !placed.contains(u) ==> !#[trigger] matrix_bit(m, words, u as nat, v),
    decreases k,
{
    if k > 0 {
        lemma_pending_zero(m, words, v, placed, (k - 1) as nat);
        assert forall|u: usize| u < k && !placed.contains(u) implies !#[trigger] matrix_bit(m, words, u as nat, v) by {
            if u == k - 1 {
                assert((k - 1) as usize == u);
            }
        }
    }
}

/// The matrix is a strict order on the nodes `0..n`: no node lies below
/// itself, and below is transitive.
pub open spec fn strict_order(m: Seq<u64>, words: nat, n: nat) -> bool {
    &&& forall|u: nat| u < n ==> !#[trigger] matrix_bit(m, words, u, u)
    &&& forall|u: nat, v: nat, w: nat|
        #![trigger matrix_bit(m, words, u, v), matrix_bit(m, words, v, w)]
        u < n && v < n && w < n && matrix_bit(m, words, u, v) && matrix_bit(m, words, v, w) ==> matrix_bit(
            m,
            words,
            u,
            w,
        )
}

/// Something is pending below `v`: some unplaced node below it says so.
proof fn lemma_pending_witness(m: Seq<u64>, words: nat, v: nat, placed: Seq<usize>, k: nat)
    requires
        pending_below(m, words, v, placed, k) > 0,
        k <= usize::MAX + 1,
    ensures
        exists|u: usize| u < k && !placed.contains(u) && #[trigger] matrix_bit(m, words, u as nat, v),
    decreases k,
{
    let u = (k - 1) as usize;
    if !(!placed.contains(u) && matrix_bit(m, words, u as nat, v)) {
        lemma_pending_witness(m, words, v, placed, (k - 1) as nat);
        let w = choose|w: usize| w < k - 1 && !placed.contains(w) && #[trigger] matrix_bit(m, words, w as nat, v);
        assert(matrix_bit(m, words, w as nat, v));
    } else {
        assert(u as nat == (k - 1) as nat);
        assert(matrix_bit(m, words, u as nat, v));
    }
}

/// In a strict order an unplaced node `u` below `y` has less pending below
/// it than `y`: all that is below `u` is below `y`, and `u` itself too.
proof fn lemma_pending_less(m: Seq<u64>, words: nat, n: nat, placed: Seq<usize>, u: usize, y: usize, k: nat)
    requires
        strict_order(m, words, n),
        u < n,
        y < n,
        k <= n,
        n <= usize::MAX + 1,
        !placed.contains(u),
        matrix_bit(m, words, u as nat, y as nat),
    ensures
        pending_below(m, words, u as nat, placed, k) + (if u < k {
            1nat
        } else {
            0nat
        }) <= pending_below(m, words, y as nat, placed, k),
    decreases k,
{
    if k > 0 {
        lemma_pending_less(m, words, n, placed, u, y, (k - 1) as nat);
        let w = (k - 1) as usize;
        assert(w as nat == (k - 1) as nat);
        assert(!matrix_bit(m, words, u as nat, u as nat));
        if !placed.contains(w) && matrix_bit(m, words, w as nat, u as nat) {
            assert(matrix_bit(m, words, w as nat, y as nat));
        }
    }
}

/// In a strict order some unplaced node has nothing pending below it.
proof fn lemma_minimal_unplaced(m: Seq<u64>, words: nat, n: nat, placed: Seq<usize>, y: usize)
    requires
        strict_order(m, words, n),
        y < n,
        n <= usize::MAX + 1,
        !placed.contains(y),
    ensures
        exists|z: usize| z < n && !placed.contains(z) && #[trigger] pending_below(m, words, z as nat, placed, n) == 0,
    decreases pending_below(m, words, y as nat, placed, n),
{
    if pending_below(m, words, y as nat, placed, n) == 0 {
        assert(pending_below(m, words, y as nat, placed, n) == 0);
    } else {
        lemma_pending_witness(m, words, y as nat, placed, n);
        let u = choose|u: usize| u < n && !placed.contains(u) && #[trigger] matrix_bit(m, words, u as nat, y as nat);
        lemma_pending_less(m, words, n, placed, u, y, n);
        lemma_minimal_unplaced(m, words, n, placed, u);
    }
}

/// A sequence holding every value below `n` is at least `n` long.
proof fn lemma_covering_len(s: Seq<usize>, n: nat)
    requires
        forall|u: usize| u < n ==> s.contains(u),
        n <= usize::MAX + 1,
    ensures
        s.len() >= n,
{
    broadcast use vstd::seq_lib::seq_to_set_is_finite;

    s.lemma_cardinality_of_set();
    let f = |x: usize| x as int;
    let image = s.to_set().map(f);
    vstd::set_lib::lemma_map_size_bound(s.to_set(), image, f);
    vstd::set_lib::lemma_int_range(0, n as int);
    assert forall|x: int| vstd::set_lib::set_int_range(0, n as int).contains(x) implies image.contains(x) by {
        let y = x as usize;
        assert(s.contains(y));
        assert(s.to_set().contains(y));
        assert(f(y) == x);
    }
    vstd::set_lib::lemma_len_subset(vstd::set_lib::set_int_range(0, n as int), image);
}

/// `order` lists distinct nodes below `n`, each after every node below it.
pub open spec fn respects_order(m: Seq<u64>, words: nat, n: nat, order: Seq<usize>) -> bool {
    &&& forall|i: int| 0 <= i < order.len() ==> #[trigger] order[i] < n
    &&& forall|i: int, j: int| 0 <= i < j < order.len() ==> order[i] != order[j]
    &&& forall|i: int, j: int|
        0 <= i < j < order.len() ==> !matrix_bit(m, words, #[trigger] order[j] as nat, #[trigger] order[i] as nat)
}

/// A linear extension of the order drawn at random: nodes are placed one
/// by one, each time a random one of those whose lower nodes are all
/// placed.
pub fn random_linear_extension(node_count: usize, words: usize, closure: &[u64], rng: &mut Rng) -> (r: Vec<usize>)
    requires
        matrix_shape(closure@, node_count as nat, words as nat),
    ensures
        respects_order(closure@, words as nat, node_count as nat, r@),
        strict_order(closure@, words as nat, node_count as nat) ==> r@.len() == node_count,
{
    let ghost m = closure@;
    let ghost n = node_count as nat;
    let mut remaining: Vec<usize> = Vec::new();
    let ghost empty = Seq::<usize>::empty();
    let mut v: usize = 0;
    while v < node_count
        invariant
            matrix_shape(m, n, words as nat),
            m == closure@,
            n == node_count,
            empty == Seq::<usize>::empty(),
            v <= node_count,
            remaining@.len() == v,
            forall|x: int| 0 <= x < v ==> #[trigger] remaining@[x] as nat == pending_below(m, words as nat, x as nat, empty, n),
        decreases node_count - v,
    {
        let mut count: usize = 0;
        let mut u: usize = 0;
        while u < node_count
            invariant
                matrix_shape(m, n, words as nat),
                m == closure@,
                n == node_count,
                empty == Seq::<usize>::empty(),
                v < node_count,
                u <= node_count,
                count as nat == pending_below(m, words as nat, v as nat, empty, u as nat),
                count <= u,
            decreases node_count - u,
        {
            proof {
                lemma_index(u as nat, (v / 64) as nat, words as nat, n);
                assert(!empty.contains(u));
                assert(((u + 1) - 1) as usize == u);
            }
            if reaches(closure, words, u, v) {
                count = count + 1;
            }
            u = u + 1;
        }
        remaining.push(count);
        v = v + 1;
    }
    let mut ready: Vec<usize> = Vec::new();
    let mut x: usize = 0;
    while x < node_count
        invariant
            n == node_count,
            remaining@.len() == node_count,
            x <= node_count,
            forall|i: int| 0 <= i < ready@.len() ==> #[trigger] ready@[i] < x,
            forall|i: int, j: int| 0 <= i < j < ready@.len() ==> ready@[i] != ready@[j],
            forall|y: usize| y < x ==> (#[trigger] ready@.contains(y) <==> remaining@[y as int] == 0),
        decreases node_count - x,
    {
        let ghost r0 = ready@;
        if remaining[x] == 0 {
            ready.push(x);
        }
        proof {
            assert forall|y: usize| y < x + 1 implies (#[trigger] ready@.contains(y) <==> remaining@[y as int] == 0) by {
                if y < x {
                    assert(r0.contains(y) <==> remaining@[y as int] == 0);
                    if ready@.contains(y) {
                        let i = choose|i: int| 0 <= i < ready@.len() && ready@[i] == y;
                        if i < r0.len() {
                            assert(r0[i] == y);
                        } else {
                            assert(ready@[i] == x);
                        }
                    }
                    if r0.contains(y) {
                        let i = choose|i: int| 0 <= i < r0.len() && r0[i] == y;
                        assert(ready@[i] == y);
                    }
                } else {
                    if ready@.contains(y) {
                        let i = choose|i: int| 0 <= i < ready@.len() && ready@[i] == y;
                        if i < r0.len() {
                            assert(r0[i] < x);
                        }
                    }
                    if remaining@[y as int] == 0 {
                        assert(ready@[r0.len() as int] == y);
                    }
                }
            }
            assert forall|i: int, j: int| 0 <= i < j < ready@.len() implies ready@[i] != ready@[j] by {
                if j >= r0.len() {
                    assert(ready@[i] == r0[i]);
                    assert(r0[i] < x);
                } else {
                    assert(ready@[i] == r0[i] && ready@[j] == r0[j]);
                }
            }
            assert forall|i: int| 0 <= i < ready@.len() implies #[trigger] ready@[i] < x + 1 by {
                if i < r0.len() {
                    assert(ready@[i] == r0[i]);
                }
            }
        }
        x = x + 1;
    }
    let mut order: Vec<usize> = Vec::new();
    while ready.len() > 0
        invariant
            matrix_shape(m, n, words as nat),
            m == closure@,
            n == node_count,
            remaining@.len() == node_count,
            respects_order(m, words as nat, n, order@),
            forall|i: int| 0 <= i < ready@.len() ==> #[trigger] ready@[i] < node_count && !order@.contains(ready@[i]),
            forall|i: int, j: int| 0 <= i < j < ready@.len() ==> ready@[i] != ready@[j],
            forall|y: int| 0 <= y < node_count && !order@.contains(y as usize) ==> #[trigger] remaining@[y] as nat
                == pending_below(m, words as nat, y as nat, order@, n),
            forall|y: usize| y < node_count && !order@.contains(y) ==> (#[trigger] ready@.contains(y) <==> remaining@[y as int] == 0),
            forall|y: usize, i: int|
                0 <= i < order@.len() && y < node_count && #[trigger] matrix_bit(m, words as nat, y as nat, order@[i] as nat)
                    ==> order@.subrange(0, i).contains(y),
        decreases node_count - order@.len(),
    {
        let ghost p0 = order@;
        let ghost rem0 = remaining@;
        let at = rng.below(ready.len());
        let ghost ready_before = ready@;
        let picked = ready.swap_remove(at);
        let ghost ready0 = ready@;
        proof {
            assert(ready_before[at as int] == picked);
            assert(ready_before.contains(picked));
            assert(!p0.contains(picked));
            assert(remaining@[picked as int] == 0);
            assert(pending_below(m, words as nat, picked as nat, p0, n) == 0);
            lemma_pending_zero(m, words as nat, picked as nat, p0, n);
            assert forall|y: usize| #[trigger] ready0.contains(y) <==> (ready_before.contains(y) && y != picked) by {
                if ready0.contains(y) {
                    let i = choose|i: int| 0 <= i < ready0.len() && ready0[i] == y;
                    if i == at {
                        assert(y == ready_before.last());
                        assert(ready_before[ready_before.len() - 1] == y);
                        assert(ready_before.len() - 1 != at);
                    } else {
                        assert(ready_before[i] == y);
                        assert(i != at);
                    }
                }
                if ready_before.contains(y) && y != picked {
                    let i = choose|i: int| 0 <= i < ready_before.len() && ready_before[i] == y;
                    if i == ready_before.len() - 1 {
                        if at != ready_before.len() - 1 {
                            assert(ready0[at as int] == y);
                        }
                    } else {
                        assert(i != at);
                        assert(ready0[i] == y);
                    }
                }
            }
            assert forall|i: int, j: int| 0 <= i < j < ready0.len() implies ready0[i] != ready0[j] by {
                let li = if i == at { ready_before.len() - 1 } else { i };
                let lj = if j == at { ready_before.len() - 1 } else { j };
                assert(ready0[i] == ready_before[li]);
                assert(ready0[j] == ready_before[lj]);
            }
            crate::poset::lemma_distinct_bound(p0.push(picked), n);
        }
        order.push(picked);
        let ghost p1 = order@;
        proof {
            assert forall|y: usize| #[trigger] p1.contains(y) <==> (p0.contains(y) || y == picked) by {
                if p1.contains(y) {
                    let i = choose|i: int| 0 <= i < p1.len() && p1[i] == y;
                    if i < p0.len() {
                        assert(p0[i] == y);
                    }
                }
                if p0.contains(y) {
                    let i = choose|i: int| 0 <= i < p0.len() && p0[i] == y;
                    assert(p1[i] == y);
                }
                if y == picked {
                    assert(p1[p0.len() as int] == y);
                }
            }
            assert forall|y: usize| y < node_count && !p1.contains(y) implies (#[trigger] ready@.contains(y) <==> rem0[y as int] == 0) by {
                assert(ready0.contains(y) <==> ready_before.contains(y));
                assert(ready_before.contains(y) <==> rem0[y as int] == 0);
            }
            assert forall|i: int| 0 <= i < ready@.len() implies #[trigger] ready@[i] < node_count && !p1.contains(ready@[i]) by {
                assert(ready0.contains(ready0[i]));
                assert(ready_before.contains(ready0[i]));
                let t = choose|t: int| 0 <= t < ready_before.len() && ready_before[t] == ready0[i];
            }
        }
        let mut w: usize = 0;
        while w < node_count
            invariant
                matrix_shape(m, n, words as nat),
                m == closure@,
                n == node_count,
                remaining@.len() == node_count,
                p1 == p0.push(picked),
                order@ == p1,
                picked < node_count,
                !p0.contains(picked),
                w <= node_count,
                forall|y: usize| #[trigger] p1.contains(y) <==> (p0.contains(y) || y == picked),
                forall|u: usize| u < node_count && !p0.contains(u) ==> !#[trigger] matrix_bit(m, words as nat, u as nat, picked as nat),
                forall|y: usize, i: int|
                    0 <= i < p0.len() && y < node_count && #[trigger] matrix_bit(m, words as nat, y as nat, p0[i] as nat)
                        ==> p0.subrange(0, i).contains(y),
                forall|y: int| 0 <= y < node_count && !p0.contains(y as usize) ==> #[trigger] rem0[y] as nat
                    == pending_below(m, words as nat, y as nat, p0, n),
                forall|y: int| 0 <= y < node_count && !p1.contains(y as usize) ==> #[trigger] remaining@[y] as nat
                    == if y < w { pending_below(m, words as nat, y as nat, p1, n) } else { rem0[y] as nat },
                forall|i: int| 0 <= i < ready@.len() ==> #[trigger] ready@[i] < node_count && !p1.contains(ready@[i]),
                forall|i: int, j: int| 0 <= i < j < ready@.len() ==> ready@[i] != ready@[j],
                forall|y: usize| y < node_count && !p1.contains(y) ==> (#[trigger] ready@.contains(y) <==> if y < w {
                    remaining@[y as int] == 0
                } else {
                    rem0[y as int] == 0
                }),
            decreases node_count - w,
        {
            proof {
                lemma_index(picked as nat, (w / 64) as nat, words as nat, n);
                lemma_pending_place(m, words as nat, w as nat, p0, picked, n);
            }
            if reaches(closure, words, picked, w) {
                proof {
                    // `w` is not placed: all nodes below a placed node were
                    // placed before it, and `picked` was not.
                    if p0.contains(w) {
                        let i = choose|i: int| 0 <= i < p0.len() && p0[i] == w;
                        assert(p0.subrange(0, i).contains(picked));
                        let t = choose|t: int| 0 <= t < i && p0.subrange(0, i)[t] == picked;
                        assert(p0[t] == picked);
                    }
                    assert(w != picked);
                    lemma_pending_positive(m, words as nat, w as nat, p0, picked, n);
                }
                let ghost rd = ready@;
                remaining.set(w, remaining[w] - 1);
                if remaining[w] == 0 {
                    ready.push(w);
                    proof {
                        assert(!rd.contains(w));
                        assert forall|i: int, j: int| 0 <= i < j < ready@.len() implies ready@[i] != ready@[j] by {
                            if j == rd.len() {
                                assert(ready@[i] == rd[i]);
                                assert(rd.contains(rd[i]));
                            }
                        }
                        assert forall|y: usize| #[trigger] ready@.contains(y) <==> (rd.contains(y) || y == w) by {
                            if ready@.contains(y) {
                                let i = choose|i: int| 0 <= i < ready@.len() && ready@[i] == y;
                                if i < rd.len() {
                                    assert(rd[i] == y);
                                }
                            }
                            if rd.contains(y) {
                                let i = choose|i: int| 0 <= i < rd.len() && rd[i] == y;
                                assert(ready@[i] == y);
                            }
                            if y == w {
                                assert(ready@[rd.len() as int] == y);
                            }
                        }
                    }
                }
            }
            w = w + 1;
        }
        proof {
            assert forall|y: usize, i: int|
                0 <= i < p1.len() && y < node_count && #[trigger] matrix_bit(m, words as nat, y as nat, p1[i] as nat)
                    implies p1.subrange(0, i).contains(y) by {
                if i < p0.len() {
                    assert(p1[i] == p0[i]);
                    assert(p1.subrange(0, i) =~= p0.subrange(0, i));
                } else {
                    assert(p1[i] == picked);
                    if !p0.contains(y) {
                        assert(!matrix_bit(m, words as nat, y as nat, picked as nat));
                    }
                    assert(p1.subrange(0, i) =~= p0);
                }
            }
            assert forall|i: int, j: int| 0 <= i < j < p1.len() implies !matrix_bit(
                m,
                words as nat,
                #[trigger] p1[j] as nat,
                #[trigger] p1[i] as nat,
            ) by {
                if j < p0.len() {
                    assert(p1[i] == p0[i] && p1[j] == p0[j]);
                } else {
                    assert(p1[j] == picked);
                    assert(p1[i] == p0[i]);
                    if matrix_bit(m, words as nat, picked as nat, p0[i] as nat) {
                        assert(p0.subrange(0, i).contains(picked));
                        let t = choose|t: int| 0 <= t < i && p0.subrange(0, i)[t] == picked;
                        assert(p0[t] == picked);
                    }
                }
            }
            assert forall|i: int, j: int| 0 <= i < j < p1.len() implies p1[i] != p1[j] by {
                if j == p0.len() {
                    assert(p1[i] == p0[i]);
                    assert(p0.contains(p0[i]));
                }
            }
            assert forall|i: int| 0 <= i < p1.len() implies #[trigger] p1[i] < n by {
                if i < p0.len() {
                    assert(p1[i] == p0[i]);
                }
            }
        }
    }
    proof {
        if strict_order(m, words as nat, n) {
            // Were a node left out, a minimal one would be ready.
            assert forall|y: usize| y < n implies order@.contains(y) by {
                if !order@.contains(y) {
                    lemma_minimal_unplaced(m, words as nat, n, order@, y);
                    let z = choose|z: usize| z < n && !order@.contains(z) && #[trigger] pending_below(m, words as nat, z as nat, order@, n) == 0;
                    assert(remaining@[z as int] as nat == pending_below(m, words as nat, z as nat, order@, n));
                    assert(ready@.contains(z));
                }
            }
            lemma_covering_len(order@, n);
            crate::poset::lemma_distinct_bound(order@, n);
        }
    }
    order
}

} // verus!
